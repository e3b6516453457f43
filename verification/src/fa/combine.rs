//! Combining automata with epsilon transitions: union.
use crate::cfg::cfg::clone_terminals;
use crate::cfg::queries::{same_alphabet, same_names};
use crate::collections::{IndexSet, IndexSetMap, NameSet, StateIndexMap, SymbolIndexMap};
use crate::fa::epsilon_nfa::ENFA;
use crate::fa::state::{clone_states, State};
use crate::input_symbol::{epsilon, epsilon_name, InputSymbol};
use crate::language::word_of;
use vstd::prelude::*;

verus! {

/// The indices of `s`, each moved up by `base`.
pub open spec fn shifted(s: Set<usize>, base: nat) -> Set<usize> {
    Set::new(|q: usize| q >= base && s.contains((q - base) as usize))
}

/// The entries of `m`, each index moved up by `base`.
pub open spec fn shifted_entries(m: Map<Seq<char>, usize>, base: nat) -> Map<Seq<char>, usize> {
    Map::new(|k: Seq<char>| m.contains_key(k), |k: Seq<char>| (m[k] + base) as usize)
}

/// The alphabet map and the alphabet's names after the names `names` are
/// added, in order, to the map `map` and the names `alpha`: a name that the
/// map does not have yet goes to the end and is numbered by its place.
pub open spec fn merge_symbols(map: Map<Seq<char>, usize>, alpha: Seq<Seq<char>>, names: Seq<Seq<char>>) -> (Map<Seq<char>, usize>, Seq<Seq<char>>)
    decreases names.len(),
{
    if names.len() == 0 {
        (map, alpha)
    } else {
        let prev = merge_symbols(map, alpha, names.drop_last());
        if prev.0.contains_key(names.last()) {
            prev
        } else {
            (prev.0.insert(names.last(), prev.1.len() as usize), prev.1.push(names.last()))
        }
    }
}

/// Whether every entry of `map` names the entry of `alpha` that it numbers.
pub open spec fn indexes(map: Map<Seq<char>, usize>, alpha: Seq<Seq<char>>) -> bool {
    forall|s: Seq<char>| #[trigger] map.contains_key(s) ==> map[s] < alpha.len() && alpha[map[s] as int] == s
}

/// Merging keeps what the map had, adds every merged name, keeps the map
/// pointing at the right names, and only appends to the names.
pub proof fn lemma_merge_symbols(map: Map<Seq<char>, usize>, alpha: Seq<Seq<char>>, names: Seq<Seq<char>>)
    requires
        indexes(map, alpha),
        alpha.len() + names.len() <= usize::MAX,
    ensures
        indexes(merge_symbols(map, alpha, names).0, merge_symbols(map, alpha, names).1),
        alpha.len() <= merge_symbols(map, alpha, names).1.len() <= alpha.len() + names.len(),
        merge_symbols(map, alpha, names).1.take(alpha.len() as int) == alpha,
        forall|s: Seq<char>| #[trigger] map.contains_key(s) ==> merge_symbols(map, alpha, names).0.contains_key(s)
            && merge_symbols(map, alpha, names).0[s] == map[s],
        forall|i: int| 0 <= i < names.len() ==> merge_symbols(map, alpha, names).0.contains_key(#[trigger] names[i]),
        forall|s: Seq<char>| #[trigger] merge_symbols(map, alpha, names).0.contains_key(s) ==> map.contains_key(s) || names.contains(s),
        forall|s: Seq<char>| #[trigger] merge_symbols(map, alpha, names).0.contains_key(s) && !map.contains_key(s)
            ==> merge_symbols(map, alpha, names).0[s] >= alpha.len(),
    decreases names.len(),
{
    if names.len() > 0 {
        let rest = names.drop_last();
        lemma_merge_symbols(map, alpha, rest);
        let prev = merge_symbols(map, alpha, rest);
        assert forall|s: Seq<char>| #[trigger] merge_symbols(map, alpha, names).0.contains_key(s) implies map.contains_key(s) || names.contains(s) by {
            if prev.0.contains_key(s) {
                if rest.contains(s) {
                    let k = choose|k: int| 0 <= k < rest.len() && rest[k] == s;
                    assert(names[k] == s);
                }
            } else {
                assert(names[names.len() - 1] == s);
            }
        }
        assert forall|i: int| 0 <= i < names.len() implies merge_symbols(map, alpha, names).0.contains_key(#[trigger] names[i]) by {
            if i < rest.len() {
                assert(rest[i] == names[i]);
            }
        }
        if !prev.0.contains_key(names.last()) {
            assert(prev.1.push(names.last()).take(alpha.len() as int) =~= prev.1.take(alpha.len() as int));
        }
    } else {
        assert(alpha.take(alpha.len() as int) =~= alpha);
    }
}

/// Whether `new_row` is `row` with every symbol `b` renumbered to `ren[b]`
/// and every target moved up by `base` (where two symbols get one number,
/// the targets of one of them).
pub open spec fn moved_row(row: Map<usize, Set<usize>>, ren: Seq<usize>, base: nat, new_row: Map<usize, Set<usize>>) -> bool {
    &&& forall|b: usize| #[trigger] row.contains_key(b) ==> new_row.contains_key(ren[b as int])
    &&& forall|c: usize| #[trigger] new_row.contains_key(c) ==> exists|b: usize| #[trigger] row.contains_key(b) && ren[b as int] == c && new_row[c] == shifted(row[b], base)
}

/// Adds the elements of `v` to `into`, each moved up by `base`.
fn add_shifted(into: &mut IndexSet, v: &Vec<usize>, base: usize)
    requires
        forall|i: int| 0 <= i < v@.len() ==> #[trigger] v@[i] + base <= usize::MAX,
    ensures
        final(into)@ == old(into)@.union(shifted(v@.to_set(), base as nat)),
{
    let ghost init = into@;
    let mut i: usize = 0;
    while i < v.len()
        invariant
            i <= v@.len(),
            forall|k: int| 0 <= k < v@.len() ==> #[trigger] v@[k] + base <= usize::MAX,
            forall|q: usize| #[trigger] into@.contains(q) <==> init.contains(q) || exists|j: int| 0 <= j < i && q == v@[j] + base,
        decreases v@.len() - i,
    {
        let x = v[i] + base;
        into.insert(x);
        proof {
            assert forall|q: usize| #[trigger] into@.contains(q) <==> init.contains(q) || exists|j: int| 0 <= j < i + 1 && q == v@[j] + base by {
                if q == x {
                    assert(q == v@[i as int] + base);
                }
                if exists|j: int| 0 <= j < i + 1 && q == v@[j] + base {
                    let j = choose|j: int| 0 <= j < i + 1 && q == v@[j] + base;
                    if j < i {
                        assert(exists|j: int| 0 <= j < i && q == v@[j] + base);
                    }
                }
            }
        }
        i = i + 1;
    }
    proof {
        let target = init.union(shifted(v@.to_set(), base as nat));
        assert forall|q: usize| #[trigger] into@.contains(q) <==> target.contains(q) by {
            if into@.contains(q) && !init.contains(q) {
                let j = choose|j: int| 0 <= j < i && q == v@[j] + base;
                assert(v@.to_set().contains(v@[j]));
            }
            if shifted(v@.to_set(), base as nat).contains(q) {
                let p = (q - base) as usize;
                assert(v@.contains(p));
                let j = choose|j: int| 0 <= j < v@.len() && v@[j] == p;
                assert(q == v@[j] + base);
            }
        }
        assert(into@ =~= target);
    }
}

/// `row` with every symbol `b` renumbered to `ren[b]` and every target moved up by `base`.
fn move_row(row: &IndexSetMap, ren: &Vec<usize>, base: usize) -> (r: IndexSetMap)
    requires
        forall|b: usize| #[trigger] row@.contains_key(b) ==> b < ren@.len()
            && forall|q: usize| #[trigger] row@[b].contains(q) ==> q + base <= usize::MAX,
    ensures
        moved_row(row@, ren@, base as nat, r@),
{
    let keys = row.keys();
    let mut r = IndexSetMap::new();
    let mut j: usize = 0;
    while j < keys.len()
        invariant
            j <= keys@.len(),
            keys@.to_set() == row@.dom(),
            forall|b: usize| #[trigger] row@.contains_key(b) ==> b < ren@.len()
                && forall|q: usize| #[trigger] row@[b].contains(q) ==> q + base <= usize::MAX,
            forall|k: int| 0 <= k < j ==> r@.contains_key(ren@[#[trigger] keys@[k] as int]),
            forall|c: usize| #[trigger] r@.contains_key(c) ==> exists|b: usize| #[trigger] row@.contains_key(b) && ren@[b as int] == c && r@[c] == shifted(row@[b], base as nat),
        decreases keys@.len() - j,
    {
        let b = keys[j];
        proof {
            assert(keys@.to_set().contains(b));
        }
        let targets = row.targets(b);
        proof {
            assert forall|i: int| 0 <= i < targets@.len() implies #[trigger] targets@[i] + base <= usize::MAX by {
                assert(targets@.to_set().contains(targets@[i]));
            }
        }
        let mut set = IndexSet::new();
        add_shifted(&mut set, &targets, base);
        proof {
            assert(set@ =~= shifted(targets@.to_set(), base as nat));
        }
        let ghost old_r = r@;
        r.insert(ren[b], set);
        proof {
            assert forall|c: usize| #[trigger] r@.contains_key(c) implies exists|b2: usize| #[trigger] row@.contains_key(b2) && ren@[b2 as int] == c && r@[c] == shifted(row@[b2], base as nat) by {
                if c != ren@[b as int] {
                    assert(old_r.contains_key(c));
                } else {
                    assert(row@.contains_key(b) && ren@[b as int] == c && r@[c] == shifted(row@[b], base as nat));
                }
            }
            assert forall|k: int| 0 <= k < j + 1 implies r@.contains_key(ren@[#[trigger] keys@[k] as int]) by {
                if k < j {
                    assert(old_r.contains_key(ren@[keys@[k] as int]));
                }
            }
        }
        j = j + 1;
    }
    proof {
        assert forall|b: usize| #[trigger] row@.contains_key(b) implies r@.contains_key(ren@[b as int]) by {
            assert(keys@.to_set().contains(b));
            let k = choose|k: int| 0 <= k < keys@.len() && keys@[k] == b;
            assert(r@.contains_key(ren@[keys@[k] as int]));
        }
    }
    r
}

/// `map` with the entries of `other`, each index moved up by `base`, added
/// (over an entry of the same name).
fn add_shifted_entries(map: &mut StateIndexMap, other: &StateIndexMap, base: usize)
    requires
        forall|k: Seq<char>| #[trigger] other@.contains_key(k) ==> other@[k] + base <= usize::MAX,
    ensures
        final(map)@ == old(map)@.union_prefer_right(shifted_entries(other@, base as nat)),
{
    let ghost init = map@;
    let entries = other.to_vec();
    let mut i: usize = 0;
    while i < entries.len()
        invariant
            i <= entries@.len(),
            forall|k: Seq<char>| #[trigger] other@.contains_key(k) ==> other@[k] + base <= usize::MAX,
            forall|j: int| 0 <= j < entries@.len() ==> other@.contains_key(#[trigger] entries@[j].0@) && other@[entries@[j].0@] == entries@[j].1,
            forall|k: Seq<char>| #[trigger] map@.contains_key(k) <==> init.contains_key(k) || exists|j: int| 0 <= j < i && entries@[j].0@ == k,
            forall|k: Seq<char>| #[trigger] map@.contains_key(k) ==> map@[k] == (if exists|j: int| 0 <= j < i && entries@[j].0@ == k { (other@[k] + base) as usize } else { init[k] }),
        decreases entries@.len() - i,
    {
        let ghost old_map = map@;
        let name = entries[i].0.clone();
        let idx = entries[i].1;
        proof {
            assert(other@.contains_key(entries@[i as int].0@));
        }
        map.insert(name, idx + base);
        proof {
            assert forall|k: Seq<char>| #[trigger] map@.contains_key(k) <==> init.contains_key(k) || exists|j: int| 0 <= j < i + 1 && entries@[j].0@ == k by {
                if k == name@ {
                    assert(entries@[i as int].0@ == k);
                }
                if exists|j: int| 0 <= j < i + 1 && entries@[j].0@ == k {
                    let j = choose|j: int| 0 <= j < i + 1 && entries@[j].0@ == k;
                    if j < i {
                        assert(old_map.contains_key(k));
                    }
                }
            }
            assert forall|k: Seq<char>| #[trigger] map@.contains_key(k) implies map@[k] == (if exists|j: int| 0 <= j < i + 1 && entries@[j].0@ == k { (other@[k] + base) as usize } else { init[k] }) by {
                if k == name@ {
                    assert(entries@[i as int].0@ == k);
                } else {
                    assert(old_map.contains_key(k));
                    if exists|j: int| 0 <= j < i + 1 && entries@[j].0@ == k {
                        let j = choose|j: int| 0 <= j < i + 1 && entries@[j].0@ == k;
                        assert(j < i);
                    }
                }
            }
        }
        i = i + 1;
    }
    proof {
        let target = init.union_prefer_right(shifted_entries(other@, base as nat));
        assert forall|k: Seq<char>| #[trigger] map@.contains_key(k) <==> target.contains_key(k) by {
            if other@.contains_key(k) {
                let j = choose|j: int| 0 <= j < entries@.len() && #[trigger] entries@[j].0@ == k;
            }
        }
        assert forall|k: Seq<char>| #[trigger] map@.contains_key(k) implies map@[k] == target[k] by {
            if other@.contains_key(k) {
                let j = choose|j: int| 0 <= j < entries@.len() && #[trigger] entries@[j].0@ == k;
            }
        }
        assert(map@ =~= target);
    }
}

impl ENFA {
    /// The alphabet map and the alphabet's names of the union of `self` and
    /// `other`: those of `self`, the symbols of `other` that it lacks
    /// appended in order, and epsilon appended where neither has it.
    pub open spec fn union_symbols(&self, other: &ENFA) -> (Map<Seq<char>, usize>, Seq<Seq<char>>) {
        let m = merge_symbols(self.alphabet_index_map@, word_of(self.alphabet@), word_of(other.alphabet@));
        if m.0.contains_key(epsilon_name()) {
            m
        } else {
            (m.0.insert(epsilon_name(), m.1.len() as usize), m.1.push(epsilon_name()))
        }
    }

    /// The number that each symbol of `other` gets in the union of `self` and `other`.
    pub open spec fn union_renumbering(&self, other: &ENFA) -> Seq<usize> {
        Seq::new(other.alphabet@.len(), |i: int| self.union_symbols(other).0[other.alphabet@[i]@])
    }

    /// Whether `r` is the union automaton of `self` and `other` as `union`
    /// builds it: the states of `self`, then those of `other` numbered after
    /// them, then a new start state named `start` that moves without reading
    /// to both start states; the alphabet of `self` with the symbols of
    /// `other` that it lacks appended (and epsilon where neither has it);
    /// the moves of `self` as they were and those of `other` renumbered.
    pub open spec fn is_union(&self, other: &ENFA, r: &ENFA) -> bool {
        &&& r.n() == self.n() + other.n() + 1
        &&& forall|i: int| 0 <= i < self.n() ==> #[trigger] r.states@[i] == self.states@[i]
        &&& forall|i: int| 0 <= i < other.n() ==> #[trigger] r.states@[self.n() + i] == other.states@[i]
        &&& r.states@[self.n() + other.n() as int]@ == "start"@
        &&& r.state_index_map@ == self.state_index_map@.union_prefer_right(shifted_entries(other.state_index_map@, self.n()))
            .insert("start"@, (self.n() + other.n()) as usize)
        &&& (r.alphabet_index_map@, word_of(r.alphabet@)) == self.union_symbols(other)
        &&& r.start_state == self.n() + other.n()
        &&& r.accept_states@ == self.accept_states@.union(shifted(other.accept_states@, self.n()))
        &&& forall|p: int| 0 <= p < self.n() ==> #[trigger] r.transitions@[p]@ == self.transitions@[p]@
        &&& forall|q: int| 0 <= q < other.n() ==> moved_row(other.transitions@[q]@, self.union_renumbering(other), self.n(), #[trigger] r.transitions@[self.n() + q]@)
        &&& r.transitions@[self.n() + other.n() as int]@ == map![r.alphabet_index_map@[epsilon_name()] => set![self.start_state, (other.start_state + self.n()) as usize]]
    }

    /// The alphabet of `self` with the symbols of `other` that it lacks
    /// added in order, its index map, and the new number of each symbol of `other`.
    fn merge_alphabet(&self, other: &ENFA) -> (r: (Vec<InputSymbol>, SymbolIndexMap, Vec<usize>))
        requires
            self.wf(),
            self.alphabet@.len() + other.alphabet@.len() <= usize::MAX,
        ensures
            (r.1@, word_of(r.0@)) == merge_symbols(self.alphabet_index_map@, word_of(self.alphabet@), word_of(other.alphabet@)),
            r.2@.len() == other.alphabet@.len(),
            forall|i: int| 0 <= i < other.alphabet@.len() ==> r.1@.contains_key(#[trigger] other.alphabet@[i]@),
            forall|i: int| 0 <= i < other.alphabet@.len() ==> #[trigger] r.2@[i] == r.1@[other.alphabet@[i]@],
    {
        let ghost names = word_of(other.alphabet@);
        let ghost map0 = self.alphabet_index_map@;
        let ghost alpha0 = word_of(self.alphabet@);
        let mut alphabet = clone_terminals(&self.alphabet);
        let mut map = self.alphabet_index_map.clone();
        let mut ren: Vec<usize> = Vec::new();
        proof {
            assert forall|s: Seq<char>| #[trigger] map0.contains_key(s) implies map0[s] < alpha0.len() && alpha0[map0[s] as int] == s by {
                assert(self.alphabet_index_map@.contains_key(s));
            }
            lemma_merge_symbols(map0, alpha0, names);
            assert(names.take(0) =~= Seq::<Seq<char>>::empty());
        }
        let mut i: usize = 0;
        while i < other.alphabet.len()
            invariant
                names == word_of(other.alphabet@),
                indexes(map0, alpha0),
                alpha0.len() + names.len() <= usize::MAX,
                i <= names.len(),
                (map@, word_of(alphabet@)) == merge_symbols(map0, alpha0, names.take(i as int)),
                ren@.len() == i,
                forall|k: int| 0 <= k < i ==> map@.contains_key(#[trigger] other.alphabet@[k]@),
                forall|k: int| 0 <= k < i ==> #[trigger] ren@[k] == map@[other.alphabet@[k]@],
            decreases names.len() - i,
        {
            proof {
                lemma_merge_symbols(map0, alpha0, names.take(i as int));
                assert(names.take(i + 1).drop_last() =~= names.take(i as int));
                assert(names[i as int] == other.alphabet@[i as int]@);
            }
            let ghost old_map = map@;
            let ghost old_ren = ren@;
            let sym = &other.alphabet[i];
            match map.get(sym) {
                Some(j) => {
                    ren.push(j);
                },
                None => {
                    let n = alphabet.len();
                    let ghost old_alpha = alphabet@;
                    alphabet.push(sym.clone());
                    map.insert(sym.clone(), n);
                    ren.push(n);
                    proof {
                        assert(word_of(alphabet@) =~= word_of(old_alpha).push(sym@));
                    }
                },
            }
            proof {
                assert forall|k: int| 0 <= k < i + 1 implies map@.contains_key(#[trigger] other.alphabet@[k]@) by {
                    if k < i {
                        assert(old_map.contains_key(other.alphabet@[k]@));
                    }
                }
                assert forall|k: int| 0 <= k < i + 1 implies #[trigger] ren@[k] == map@[other.alphabet@[k]@] by {
                    if k < i {
                        assert(old_map.contains_key(other.alphabet@[k]@));
                        assert(old_ren[k] == old_map[other.alphabet@[k]@]);
                        assert(ren@[k] == old_ren[k]);
                    }
                }
            }
            i = i + 1;
        }
        proof {
            assert(names.take(i as int) =~= names);
        }
        (alphabet, map, ren)
    }

    /// An automaton for the union of the languages of `self` and `other`:
    /// the states of `self`, then those of `other` (numbered after them),
    /// then a new start state named `start` that moves without reading to
    /// both start states. The alphabet is that of `self` with the symbols
    /// of `other` that it lacks appended (and epsilon where neither has it);
    /// the moves of `other` are renumbered accordingly.
    pub fn union(&self, other: &Self) -> (r: ENFA)
        requires
            self.wf(),
            other.wf(),
            self.n() + other.n() + 1 <= usize::MAX,
            self.alphabet@.len() + other.alphabet@.len() + 1 <= usize::MAX,
        ensures
            r.wf(),
            self.is_union(other, &r),
            r.n() == self.n() + other.n() + 1,
            r.start_state == self.n() + other.n(),
            other.symbols_indexed() ==> forall|w: Seq<Seq<char>>| (forall|i: int| 0 <= i < w.len() ==> #[trigger] w[i] != epsilon_name())
                ==> (#[trigger] r.accepts_word(w) <==> self.accepts_word(w) || other.accepts_word(w)),
    {
        let base = self.states.len();
        // states
        let mut states = clone_states(&self.states);
        let mut i: usize = 0;
        while i < other.states.len()
            invariant
                base == self.n(),
                i <= other.n(),
                states@ == self.states@ + other.states@.take(i as int),
            decreases other.n() - i,
        {
            states.push(other.states[i].clone());
            proof {
                assert(other.states@.take(i + 1) =~= other.states@.take(i as int).push(other.states@[i as int]));
            }
            i = i + 1;
        }
        proof {
            assert(other.states@.take(i as int) =~= other.states@);
        }
        let mut state_index_map = self.state_index_map.clone();
        proof {
            assert forall|k: Seq<char>| #[trigger] other.state_index_map@.contains_key(k) implies other.state_index_map@[k] + base <= usize::MAX by {
                assert(other.state_index_map@[k] < other.n());
            }
        }
        add_shifted_entries(&mut state_index_map, &other.state_index_map, base);
        // alphabet
        let (mut alphabet, mut alphabet_index_map, ren) = self.merge_alphabet(other);
        proof {
            lemma_merge_symbols(self.alphabet_index_map@, word_of(self.alphabet@), word_of(other.alphabet@));
            assert forall|s: Seq<char>| #[trigger] self.alphabet_index_map@.contains_key(s) implies
                self.alphabet_index_map@[s] < word_of(self.alphabet@).len() && word_of(self.alphabet@)[self.alphabet_index_map@[s] as int] == s by {
            }
        }
        // transitions
        let mut transitions: Vec<IndexSetMap> = Vec::new();
        let mut p: usize = 0;
        while p < self.transitions.len()
            invariant
                self.wf(),
                p <= self.n(),
                transitions@.len() == p,
                forall|k: int| 0 <= k < p ==> #[trigger] transitions@[k]@ == self.transitions@[k]@,
            decreases self.n() - p,
        {
            transitions.push(self.transitions[p].clone());
            p = p + 1;
        }
        let mut q: usize = 0;
        while q < other.transitions.len()
            invariant
                self.wf(),
                other.wf(),
                base == self.n(),
                self.n() + other.n() + 1 <= usize::MAX,
                ren@.len() == other.alphabet@.len(),
                q <= other.n(),
                transitions@.len() == base + q,
                forall|k: int| 0 <= k < base ==> #[trigger] transitions@[k]@ == self.transitions@[k]@,
                forall|k: int| 0 <= k < q ==> moved_row(other.transitions@[k]@, ren@, base as nat, #[trigger] transitions@[base + k]@),
            decreases other.n() - q,
        {
            proof {
                assert forall|b: usize| #[trigger] other.transitions@[q as int]@.contains_key(b) implies b < ren@.len()
                    && forall|t: usize| #[trigger] other.transitions@[q as int]@[b].contains(t) ==> t + base <= usize::MAX by {
                }
            }
            let row = move_row(&other.transitions[q], &ren, base);
            let ghost before = transitions@;
            transitions.push(row);
            proof {
                assert forall|k: int| 0 <= k < q + 1 implies moved_row(other.transitions@[k]@, ren@, base as nat, #[trigger] transitions@[base + k]@) by {
                    if k < q {
                        assert(transitions@[base + k] == before[base + k]);
                    }
                }
            }
            q = q + 1;
        }
        // accept states
        let mut accept_states = self.accept_states.clone();
        let other_accept = other.accept_states.to_vec();
        proof {
            assert forall|k: int| 0 <= k < other_accept@.len() implies #[trigger] other_accept@[k] + base <= usize::MAX by {
                assert(other_accept@.to_set().contains(other_accept@[k]));
            }
        }
        add_shifted(&mut accept_states, &other_accept, base);
        // the new start state
        let start_state = states.len();
        states.push(State::new("start"));
        state_index_map.insert(State::new("start"), start_state);
        if alphabet_index_map.get(&epsilon()).is_none() {
            let n = alphabet.len();
            let ghost old_alpha = alphabet@;
            alphabet.push(epsilon());
            alphabet_index_map.insert(epsilon(), n);
            proof {
                assert(word_of(alphabet@) =~= word_of(old_alpha).push(epsilon_name()));
            }
        }
        let epsilon_index = alphabet_index_map.get(&epsilon()).unwrap();
        let mut targets = IndexSet::new();
        targets.insert(self.start_state);
        targets.insert(other.start_state + base);
        let mut start_row = IndexSetMap::new();
        start_row.insert(epsilon_index, targets);
        transitions.push(start_row);
        let r = ENFA { state_index_map, alphabet_index_map, states, alphabet, transitions, start_state, accept_states };
        proof {
            assert(start_row@ =~= map![epsilon_index => set![self.start_state, (other.start_state + base) as usize]]);
            let n = r.n();
            assert(r.wf() && self.is_union(other, &r) ==> (other.symbols_indexed() ==> forall|w: Seq<Seq<char>>| (forall|i: int| 0 <= i < w.len() ==> #[trigger] w[i] != epsilon_name())
                ==> (#[trigger] r.accepts_word(w) <==> self.accepts_word(w) || other.accepts_word(w)))) by {
                if r.wf() && self.is_union(other, &r) && other.symbols_indexed() {
                    assert forall|w: Seq<Seq<char>>| (forall|i: int| 0 <= i < w.len() ==> #[trigger] w[i] != epsilon_name())
                        implies (#[trigger] r.accepts_word(w) <==> self.accepts_word(w) || other.accepts_word(w)) by {
                        self.lemma_union_language(other, &r, w);
                    }
                }
            }
            let names = word_of(r.alphabet@);
            assert(indexes(r.alphabet_index_map@, names));
            assert forall|x: usize| #[trigger] r.accept_states@.contains(x) implies x < n by {
                if !self.accept_states@.contains(x) {
                    assert(other.accept_states@.contains((x - base) as usize));
                }
            }
            assert forall|p: int, a: usize| 0 <= p < r.transitions@.len() && #[trigger] r.transitions@[p]@.contains_key(a) implies a < r.alphabet@.len()
                && forall|t: usize| #[trigger] r.transitions@[p]@[a].contains(t) ==> t < n by {
                let m0 = merge_symbols(self.alphabet_index_map@, word_of(self.alphabet@), word_of(other.alphabet@));
                if p < base {
                    assert(self.transitions@[p]@.contains_key(a));
                } else if p < base + other.n() {
                    let k = p - base;
                    assert(moved_row(other.transitions@[k]@, ren@, base as nat, r.transitions@[base + k]@));
                    let b = choose|b: usize| #[trigger] other.transitions@[k]@.contains_key(b) && ren@[b as int] == a
                        && r.transitions@[p]@[a] == shifted(other.transitions@[k]@[b], base as nat);
                    assert(b < other.alphabet@.len());
                    assert(m0.0.contains_key(other.alphabet@[b as int]@));
                    assert forall|t: usize| #[trigger] r.transitions@[p]@[a].contains(t) implies t < n by {
                        assert(other.transitions@[k]@[b].contains((t - base) as usize));
                    }
                }
            }
            assert forall|x: Seq<char>| #[trigger] r.alphabet_index_map@.contains_key(x) implies r.alphabet_index_map@[x] < r.alphabet@.len()
                && r.alphabet@[r.alphabet_index_map@[x] as int]@ == x by {
                assert(names[r.alphabet_index_map@[x] as int] == r.alphabet@[r.alphabet_index_map@[x] as int]@);
            }
            assert forall|x: Seq<char>| #[trigger] r.state_index_map@.contains_key(x) implies r.state_index_map@[x] < n
                && r.states@[r.state_index_map@[x] as int]@ == x by {
                if x == "start"@ {
                } else if other.state_index_map@.contains_key(x) {
                    let k = other.state_index_map@[x];
                    assert(r.states@[base + k] == other.states@[k as int]);
                } else {
                    assert(self.state_index_map@.contains_key(x));
                }
            }
        }
        r
    }
}

} // verus!

verus! {

impl ENFA {
    /// Whether every symbol of the alphabet is numbered, in the alphabet map,
    /// by its own place in the alphabet (so no name occurs twice).
    pub open spec fn symbols_indexed(&self) -> bool {
        forall|i: int| 0 <= i < self.alphabet@.len() ==> self.alphabet_index_map@.contains_key(#[trigger] self.alphabet@[i]@)
            && self.alphabet_index_map@[self.alphabet@[i]@] == i
    }

    /// What the proofs about a union rest on.
    spec fn union_ready(&self, other: &ENFA, r: &ENFA) -> bool {
        &&& self.wf()
        &&& other.wf()
        &&& other.symbols_indexed()
        &&& r.wf()
        &&& self.is_union(other, r)
        &&& self.alphabet@.len() + other.alphabet@.len() + 1 <= usize::MAX
    }

    /// The numbers that the union gives the names.
    proof fn lemma_union_symbols(&self, other: &ENFA, r: &ENFA)
        requires
            self.union_ready(other, r),
        ensures
            r.alphabet_index_map@.contains_key(epsilon_name()),
            r.epsilon_index() == Some(r.alphabet_index_map@[epsilon_name()]),
            forall|s: Seq<char>| #[trigger] self.alphabet_index_map@.contains_key(s) ==> r.alphabet_index_map@.contains_key(s)
                && r.alphabet_index_map@[s] == self.alphabet_index_map@[s],
            forall|s: Seq<char>| #[trigger] r.alphabet_index_map@.contains_key(s) && !self.alphabet_index_map@.contains_key(s)
                ==> r.alphabet_index_map@[s] >= self.alphabet@.len(),
            forall|b: int| 0 <= b < other.alphabet@.len() ==> r.alphabet_index_map@.contains_key(other.alphabet@[b]@)
                && #[trigger] self.union_renumbering(other)[b] == r.alphabet_index_map@[other.alphabet@[b]@],
            forall|s: Seq<char>| #[trigger] r.alphabet_index_map@.contains_key(s) ==> self.alphabet_index_map@.contains_key(s)
                || other.alphabet_index_map@.contains_key(s) || s == epsilon_name(),
            forall|s: Seq<char>| #[trigger] other.alphabet_index_map@.contains_key(s) ==> r.alphabet_index_map@.contains_key(s),
    {
        let map0 = self.alphabet_index_map@;
        let alpha0 = word_of(self.alphabet@);
        let names = word_of(other.alphabet@);
        assert forall|s: Seq<char>| #[trigger] map0.contains_key(s) implies map0[s] < alpha0.len() && alpha0[map0[s] as int] == s by {
        }
        lemma_merge_symbols(map0, alpha0, names);
        let m = merge_symbols(map0, alpha0, names);
        assert forall|b: int| 0 <= b < other.alphabet@.len() implies r.alphabet_index_map@.contains_key(other.alphabet@[b]@)
            && #[trigger] self.union_renumbering(other)[b] == r.alphabet_index_map@[other.alphabet@[b]@] by {
            assert(names[b] == other.alphabet@[b]@);
            assert(m.0.contains_key(names[b]));
        }
        assert forall|s: Seq<char>| #[trigger] r.alphabet_index_map@.contains_key(s) implies self.alphabet_index_map@.contains_key(s)
            || other.alphabet_index_map@.contains_key(s) || s == epsilon_name() by {
            if m.0.contains_key(s) && !map0.contains_key(s) {
                let k = choose|k: int| 0 <= k < names.len() && names[k] == s;
                assert(other.alphabet@[k]@ == s);
            }
        }
        assert forall|s: Seq<char>| #[trigger] other.alphabet_index_map@.contains_key(s) implies r.alphabet_index_map@.contains_key(s) by {
            let b = other.alphabet_index_map@[s];
            assert(names[b as int] == s);
        }
        assert forall|s: Seq<char>| #[trigger] r.alphabet_index_map@.contains_key(s) && !self.alphabet_index_map@.contains_key(s)
            implies r.alphabet_index_map@[s] >= self.alphabet@.len() by {
            if !m.0.contains_key(s) {
                assert(s == epsilon_name());
            }
        }
    }

    /// The states of `self` move in the union as they did.
    proof fn lemma_union_edges_self(&self, other: &ENFA, r: &ENFA, p: usize, a: usize)
        requires
            self.union_ready(other, r),
            p < self.n(),
        ensures
            r.edges(p, a) == self.edges(p, a),
    {
        assert(r.transitions@[p as int]@ == self.transitions@[p as int]@);
    }

    /// The numbers of the symbols of `other` in the union differ.
    proof fn lemma_union_renumbering_injective(&self, other: &ENFA, r: &ENFA, b1: int, b2: int)
        requires
            self.union_ready(other, r),
            0 <= b1 < other.alphabet@.len(),
            0 <= b2 < other.alphabet@.len(),
            self.union_renumbering(other)[b1] == self.union_renumbering(other)[b2],
        ensures
            b1 == b2,
    {
        self.lemma_union_symbols(other, r);
        let c = self.union_renumbering(other)[b1];
        assert(self.union_renumbering(other)[b2] == c);
        assert(r.alphabet@[c as int]@ == other.alphabet@[b1]@);
        assert(r.alphabet@[c as int]@ == other.alphabet@[b2]@);
    }

    /// A state of `other` moves in the union on the new number of a symbol
    /// as it did on the symbol, to states numbered after those of `self`.
    proof fn lemma_union_edges_other(&self, other: &ENFA, r: &ENFA, q: usize, b: usize)
        requires
            self.union_ready(other, r),
            q < other.n(),
            b < other.alphabet@.len(),
        ensures
            r.edges((self.n() + q) as usize, self.union_renumbering(other)[b as int]) == shifted(other.edges(q, b), self.n()),
    {
        let ren = self.union_renumbering(other);
        let x = (self.n() + q) as usize;
        let c = ren[b as int];
        let row = other.transitions@[q as int]@;
        let new_row = r.transitions@[x as int]@;
        assert(moved_row(row, ren, self.n(), r.transitions@[self.n() + q]@));
        if row.contains_key(b) {
            assert(new_row.contains_key(c));
            let b2 = choose|b2: usize| #[trigger] row.contains_key(b2) && ren[b2 as int] == c && new_row[c] == shifted(row[b2], self.n());
            self.lemma_union_renumbering_injective(other, r, b as int, b2 as int);
        } else {
            if new_row.contains_key(c) {
                let b2 = choose|b2: usize| #[trigger] row.contains_key(b2) && ren[b2 as int] == c && new_row[c] == shifted(row[b2], self.n());
                self.lemma_union_renumbering_injective(other, r, b as int, b2 as int);
            }
            assert(shifted(Set::<usize>::empty(), self.n()) =~= Set::<usize>::empty());
        }
    }

    /// A state of `other` does not move in the union on a number that no
    /// symbol of `other` got.
    proof fn lemma_union_edges_other_none(&self, other: &ENFA, r: &ENFA, q: usize, c: usize)
        requires
            self.union_ready(other, r),
            q < other.n(),
            forall|b: int| 0 <= b < other.alphabet@.len() ==> #[trigger] self.union_renumbering(other)[b] != c,
        ensures
            r.edges((self.n() + q) as usize, c) == Set::<usize>::empty(),
    {
        let ren = self.union_renumbering(other);
        let x = (self.n() + q) as usize;
        let row = other.transitions@[q as int]@;
        let new_row = r.transitions@[x as int]@;
        assert(moved_row(row, ren, self.n(), r.transitions@[self.n() + q]@));
        if new_row.contains_key(c) {
            let b2 = choose|b2: usize| #[trigger] row.contains_key(b2) && ren[b2 as int] == c && new_row[c] == shifted(row[b2], self.n());
            assert(b2 < other.alphabet@.len());
            assert(ren[b2 as int] != c);
        }
    }

    /// The new start state moves, without reading, to both start states, and nowhere else.
    proof fn lemma_union_edges_start(&self, other: &ENFA, r: &ENFA, a: usize)
        requires
            self.union_ready(other, r),
        ensures
            r.edges((self.n() + other.n()) as usize, a) == (if r.epsilon_index() == Some(a) {
                set![self.start_state, (other.start_state + self.n()) as usize]
            } else {
                Set::<usize>::empty()
            }),
    {
        self.lemma_union_symbols(other, r);
    }
}


impl ENFA {
    /// The closure of a union is the union of the closures.
    pub proof fn lemma_closure_union(&self, e: Option<usize>, a: Set<usize>, b: Set<usize>)
        ensures
            self.closure_with(e, a.union(b)) == self.closure_with(e, a).union(self.closure_with(e, b)),
    {
        assert forall|q: usize| #[trigger] self.closure_with(e, a.union(b)).contains(q)
            == self.closure_with(e, a).union(self.closure_with(e, b)).contains(q) by {
            if self.closure_with(e, a.union(b)).contains(q) {
                let path = choose|path: Seq<usize>| #[trigger] self.eps_path(e, path) && a.union(b).contains(path[0]) && path.last() == q;
                if a.contains(path[0]) {
                    assert(self.closure_with(e, a).contains(q));
                } else {
                    assert(self.closure_with(e, b).contains(q));
                }
            }
            if self.closure_with(e, a).contains(q) {
                let path = choose|path: Seq<usize>| #[trigger] self.eps_path(e, path) && a.contains(path[0]) && path.last() == q;
                assert(a.union(b).contains(path[0]));
            }
            if self.closure_with(e, b).contains(q) {
                let path = choose|path: Seq<usize>| #[trigger] self.eps_path(e, path) && b.contains(path[0]) && path.last() == q;
                assert(a.union(b).contains(path[0]));
            }
        }
        assert(self.closure_with(e, a.union(b)) =~= self.closure_with(e, a).union(self.closure_with(e, b)));
    }

    /// Nothing is reached from nothing.
    pub proof fn lemma_closure_empty(&self, e: Option<usize>)
        ensures
            self.closure_with(e, Set::empty()) == Set::<usize>::empty(),
    {
        assert(self.closure_with(e, Set::empty()) =~= Set::<usize>::empty());
    }

    /// A step from a union is the union of the steps.
    pub proof fn lemma_step_union(&self, a: Set<usize>, b: Set<usize>, x: usize)
        ensures
            self.step(a.union(b), x) == self.step(a, x).union(self.step(b, x)),
    {
        assert forall|q: usize| #[trigger] self.step(a.union(b), x).contains(q) == self.step(a, x).union(self.step(b, x)).contains(q) by {
            if self.step(a.union(b), x).contains(q) {
                let p = choose|p: usize| a.union(b).contains(p) && #[trigger] self.edges(p, x).contains(q);
                if a.contains(p) {
                    assert(self.step(a, x).contains(q));
                } else {
                    assert(self.step(b, x).contains(q));
                }
            }
            if self.step(a, x).contains(q) {
                let p = choose|p: usize| a.contains(p) && #[trigger] self.edges(p, x).contains(q);
                assert(a.union(b).contains(p));
            }
            if self.step(b, x).contains(q) {
                let p = choose|p: usize| b.contains(p) && #[trigger] self.edges(p, x).contains(q);
                assert(a.union(b).contains(p));
            }
        }
        assert(self.step(a.union(b), x) =~= self.step(a, x).union(self.step(b, x)));
    }

    /// The states in range stay in range, moving without reading.
    pub proof fn lemma_closure_in_range(&self, e: Option<usize>, s: Set<usize>)
        requires
            self.wf(),
            forall|q: usize| #[trigger] s.contains(q) ==> q < self.n(),
        ensures
            forall|q: usize| #[trigger] self.closure_with(e, s).contains(q) ==> q < self.n(),
    {
        assert forall|q: usize| #[trigger] self.closure_with(e, s).contains(q) implies q < self.n() by {
            let path = choose|path: Seq<usize>| #[trigger] self.eps_path(e, path) && s.contains(path[0]) && path.last() == q;
            if path.len() > 1 {
                let j = path.len() - 2;
                assert(self.eps_edges(e, path[j]).contains(path[j + 1]));
                match e {
                    Some(x) => self.lemma_edges_in_range(path[j], x, path[j + 1]),
                    None => {},
                }
            }
        }
    }

    /// A step ends in range.
    pub proof fn lemma_step_in_range(&self, s: Set<usize>, x: usize)
        requires
            self.wf(),
        ensures
            forall|q: usize| #[trigger] self.step(s, x).contains(q) ==> q < self.n(),
    {
        assert forall|q: usize| #[trigger] self.step(s, x).contains(q) implies q < self.n() by {
            let p = choose|p: usize| s.contains(p) && #[trigger] self.edges(p, x).contains(q);
            self.lemma_edges_in_range(p, x, q);
        }
    }

    /// The states of `self` move in the union without reading as they did.
    proof fn lemma_union_eps_self(&self, other: &ENFA, r: &ENFA, p: usize)
        requires
            self.union_ready(other, r),
            p < self.n(),
        ensures
            r.eps_edges(r.epsilon_index(), p) == self.eps_edges(self.epsilon_index(), p),
    {
        self.lemma_union_symbols(other, r);
        let e = r.alphabet_index_map@[epsilon_name()];
        self.lemma_union_edges_self(other, r, p, e);
        if self.epsilon_index().is_none() {
            assert(!self.transitions@[p as int]@.contains_key(e));
        }
    }

    /// The states of `other` move in the union without reading as they did,
    /// to states numbered after those of `self`.
    proof fn lemma_union_eps_other(&self, other: &ENFA, r: &ENFA, q: usize)
        requires
            self.union_ready(other, r),
            q < other.n(),
        ensures
            r.eps_edges(r.epsilon_index(), (self.n() + q) as usize) == shifted(other.eps_edges(other.epsilon_index(), q), self.n()),
    {
        self.lemma_union_symbols(other, r);
        let e = r.alphabet_index_map@[epsilon_name()];
        match other.epsilon_index() {
            Some(x) => {
                assert(other.alphabet@[x as int]@ == epsilon_name());
                self.lemma_union_edges_other(other, r, q, x);
            },
            None => {
                assert forall|b: int| 0 <= b < other.alphabet@.len() implies #[trigger] self.union_renumbering(other)[b] != e by {
                    if self.union_renumbering(other)[b] == e {
                        assert(r.alphabet@[e as int]@ == other.alphabet@[b]@);
                        assert(other.alphabet_index_map@.contains_key(other.alphabet@[b]@));
                    }
                }
                self.lemma_union_edges_other_none(other, r, q, e);
                assert(shifted(Set::<usize>::empty(), self.n()) =~= Set::<usize>::empty());
            },
        }
    }
}


impl ENFA {
    /// In the union, the states of `self` reach without reading what they did.
    proof fn lemma_union_closure_self(&self, other: &ENFA, r: &ENFA, x: Set<usize>)
        requires
            self.union_ready(other, r),
            forall|q: usize| #[trigger] x.contains(q) ==> q < self.n(),
        ensures
            r.closure(x) == self.closure(x),
    {
        let re = r.epsilon_index();
        let se = self.epsilon_index();
        let low = Set::new(|q: usize| q < self.n());
        assert forall|p: usize, q: usize| #![trigger low.contains(p), r.eps_edges(re, p).contains(q)]
            low.contains(p) && r.eps_edges(re, p).contains(q) implies low.contains(q) by {
            self.lemma_union_eps_self(other, r, p);
            match se {
                Some(a) => self.lemma_edges_in_range(p, a, q),
                None => {},
            }
        }
        assert forall|p: usize, q: usize| #![trigger low.contains(p), self.eps_edges(se, p).contains(q)]
            low.contains(p) && self.eps_edges(se, p).contains(q) implies low.contains(q) by {
            match se {
                Some(a) => self.lemma_edges_in_range(p, a, q),
                None => {},
            }
        }
        assert forall|q: usize| #[trigger] r.closure(x).contains(q) == self.closure(x).contains(q) by {
            if r.closure(x).contains(q) {
                let path = choose|path: Seq<usize>| #[trigger] r.eps_path(re, path) && x.contains(path[0]) && path.last() == q;
                assert forall|i: int| 0 <= i < path.len() - 1 implies #[trigger] self.eps_edges(se, path[i]).contains(path[i + 1]) by {
                    r.lemma_closed_holds_path(re, low, path, i);
                    self.lemma_union_eps_self(other, r, path[i]);
                }
                assert(self.eps_path(se, path));
            }
            if self.closure(x).contains(q) {
                let path = choose|path: Seq<usize>| #[trigger] self.eps_path(se, path) && x.contains(path[0]) && path.last() == q;
                assert forall|i: int| 0 <= i < path.len() - 1 implies #[trigger] r.eps_edges(re, path[i]).contains(path[i + 1]) by {
                    self.lemma_closed_holds_path(se, low, path, i);
                    self.lemma_union_eps_self(other, r, path[i]);
                }
                assert(r.eps_path(re, path));
            }
        }
        assert(r.closure(x) =~= self.closure(x));
    }

    /// In the union, the states of `other` reach without reading what they
    /// did, numbered after those of `self`.
    proof fn lemma_union_closure_other(&self, other: &ENFA, r: &ENFA, t: Set<usize>)
        requires
            self.union_ready(other, r),
            forall|q: usize| #[trigger] t.contains(q) ==> q < other.n(),
        ensures
            r.closure(shifted(t, self.n())) == shifted(other.closure(t), self.n()),
    {
        let re = r.epsilon_index();
        let oe = other.epsilon_index();
        let base = self.n();
        let mid = Set::new(|q: usize| base <= q < base + other.n());
        let inner = Set::new(|q: usize| q < other.n());
        assert forall|p: usize, q: usize| #![trigger mid.contains(p), r.eps_edges(re, p).contains(q)]
            mid.contains(p) && r.eps_edges(re, p).contains(q) implies mid.contains(q) by {
            let k = (p - base) as usize;
            self.lemma_union_eps_other(other, r, k);
            match oe {
                Some(a) => other.lemma_edges_in_range(k, a, (q - base) as usize),
                None => {},
            }
        }
        assert forall|p: usize, q: usize| #![trigger inner.contains(p), other.eps_edges(oe, p).contains(q)]
            inner.contains(p) && other.eps_edges(oe, p).contains(q) implies inner.contains(q) by {
            match oe {
                Some(a) => other.lemma_edges_in_range(p, a, q),
                None => {},
            }
        }
        let st = shifted(t, base);
        assert forall|q: usize| #[trigger] r.closure(st).contains(q) == shifted(other.closure(t), base).contains(q) by {
            if r.closure(st).contains(q) {
                let path = choose|path: Seq<usize>| #[trigger] r.eps_path(re, path) && st.contains(path[0]) && path.last() == q;
                let down = Seq::new(path.len(), |i: int| (path[i] - base) as usize);
                assert forall|i: int| 0 <= i < down.len() - 1 implies #[trigger] other.eps_edges(oe, down[i]).contains(down[i + 1]) by {
                    r.lemma_closed_holds_path(re, mid, path, i);
                    self.lemma_union_eps_other(other, r, down[i]);
                    assert(r.eps_edges(re, path[i]).contains(path[i + 1]));
                }
                assert(other.eps_path(oe, down));
                assert(other.closure(t).contains(down.last()));
                r.lemma_closed_holds_path(re, mid, path, path.len() - 1);
            }
            if shifted(other.closure(t), base).contains(q) {
                let k = (q - base) as usize;
                let path = choose|path: Seq<usize>| #[trigger] other.eps_path(oe, path) && t.contains(path[0]) && path.last() == k;
                let up = Seq::new(path.len(), |i: int| (path[i] + base) as usize);
                assert forall|i: int| 0 <= i < up.len() - 1 implies #[trigger] r.eps_edges(re, up[i]).contains(up[i + 1]) by {
                    other.lemma_closed_holds_path(oe, inner, path, i);
                    self.lemma_union_eps_other(other, r, path[i]);
                    assert(other.eps_edges(oe, path[i]).contains(path[i + 1]));
                }
                assert(r.eps_path(re, up));
                assert(st.contains(up[0]));
            }
        }
        assert(r.closure(st) =~= shifted(other.closure(t), base));
    }
}


impl ENFA {
    /// In the union, the new start state reaches without reading itself and
    /// what the two start states reached.
    proof fn lemma_union_closure_start(&self, other: &ENFA, r: &ENFA)
        requires
            self.union_ready(other, r),
        ensures
            r.closure(set![r.start_state]) == set![r.start_state].union(self.closure(set![self.start_state])).union(
                shifted(other.closure(set![other.start_state]), self.n()),
            ),
    {
        let re = r.epsilon_index();
        let base = self.n();
        let st = r.start_state;
        let s1 = self.start_state;
        let s2 = (other.start_state + base) as usize;
        self.lemma_union_symbols(other, r);
        let e = r.alphabet_index_map@[epsilon_name()];
        self.lemma_union_edges_start(other, r, e);
        assert(r.eps_edges(re, st) == set![s1, s2]);
        assert(shifted(set![other.start_state], base) =~= set![s2]);
        self.lemma_union_closure_self(other, r, set![s1]);
        self.lemma_union_closure_other(other, r, set![other.start_state]);
        let target = set![st].union(self.closure(set![s1])).union(shifted(other.closure(set![other.start_state]), base));
        assert forall|q: usize| #[trigger] r.closure(set![st]).contains(q) == target.contains(q) by {
            if r.closure(set![st]).contains(q) {
                let path = choose|path: Seq<usize>| #[trigger] r.eps_path(re, path) && set![st].contains(path[0]) && path.last() == q;
                if path.len() > 1 {
                    let z = 0int;
                    assert(r.eps_edges(re, path[z]).contains(path[z + 1]));
                    let tail = path.subrange(1, path.len() as int);
                    assert forall|i: int| 0 <= i < tail.len() - 1 implies #[trigger] r.eps_edges(re, tail[i]).contains(tail[i + 1]) by {
                        assert(r.eps_edges(re, path[i + 1]).contains(path[i + 1 + 1]));
                    }
                    assert(r.eps_path(re, tail));
                    assert(tail.last() == q);
                    if path[1] == s1 {
                        assert(r.closure(set![s1]).contains(q));
                    } else {
                        assert(r.closure(set![s2]).contains(q));
                    }
                }
            }
            if target.contains(q) {
                if q == st {
                    r.lemma_closure_holds(re, set![st], st);
                } else if self.closure(set![s1]).contains(q) {
                    assert(r.closure(set![s1]).contains(q));
                    let path = choose|path: Seq<usize>| #[trigger] r.eps_path(re, path) && set![s1].contains(path[0]) && path.last() == q;
                    let longer = seq![st] + path;
                    assert forall|i: int| 0 <= i < longer.len() - 1 implies #[trigger] r.eps_edges(re, longer[i]).contains(longer[i + 1]) by {
                        if i > 0 {
                            let j = i - 1;
                            assert(r.eps_edges(re, path[j]).contains(path[j + 1]));
                        }
                    }
                    assert(r.eps_path(re, longer));
                    assert(longer.last() == q);
                } else {
                    assert(r.closure(set![s2]).contains(q));
                    let path = choose|path: Seq<usize>| #[trigger] r.eps_path(re, path) && set![s2].contains(path[0]) && path.last() == q;
                    let longer = seq![st] + path;
                    assert forall|i: int| 0 <= i < longer.len() - 1 implies #[trigger] r.eps_edges(re, longer[i]).contains(longer[i + 1]) by {
                        if i > 0 {
                            let j = i - 1;
                            assert(r.eps_edges(re, path[j]).contains(path[j + 1]));
                        }
                    }
                    assert(r.eps_path(re, longer));
                    assert(longer.last() == q);
                }
            }
        }
        assert(r.closure(set![st]) =~= target);
    }
}


impl ENFA {
    /// What a well-formed automaton reaches is in range.
    pub proof fn lemma_reach_in_range(&self, u: Seq<usize>)
        requires
            self.wf(),
        ensures
            forall|q: usize| #[trigger] self.reach(u).contains(q) ==> q < self.n(),
        decreases u.len(),
    {
        if u.len() == 0 {
            self.lemma_closure_in_range(self.epsilon_index(), set![self.start_state]);
        } else {
            self.lemma_step_in_range(self.reach(u.drop_last()), u.last());
            self.lemma_closure_in_range(self.epsilon_index(), self.step(self.reach(u.drop_last()), u.last()));
        }
    }

    /// In the union, the states of `self` step as they did.
    proof fn lemma_union_step_self(&self, other: &ENFA, r: &ENFA, a: Set<usize>, c: usize)
        requires
            self.union_ready(other, r),
            forall|q: usize| #[trigger] a.contains(q) ==> q < self.n(),
        ensures
            r.step(a, c) == self.step(a, c),
    {
        assert forall|q: usize| #[trigger] r.step(a, c).contains(q) == self.step(a, c).contains(q) by {
            if r.step(a, c).contains(q) {
                let p = choose|p: usize| a.contains(p) && #[trigger] r.edges(p, c).contains(q);
                self.lemma_union_edges_self(other, r, p, c);
            }
            if self.step(a, c).contains(q) {
                let p = choose|p: usize| a.contains(p) && #[trigger] self.edges(p, c).contains(q);
                self.lemma_union_edges_self(other, r, p, c);
            }
        }
        assert(r.step(a, c) =~= self.step(a, c));
    }

    /// In the union, the states of `other` step on the new number of a
    /// symbol as they did on the symbol.
    proof fn lemma_union_step_other(&self, other: &ENFA, r: &ENFA, t: Set<usize>, b: usize)
        requires
            self.union_ready(other, r),
            forall|q: usize| #[trigger] t.contains(q) ==> q < other.n(),
            b < other.alphabet@.len(),
        ensures
            r.step(shifted(t, self.n()), self.union_renumbering(other)[b as int]) == shifted(other.step(t, b), self.n()),
    {
        let base = self.n();
        let c = self.union_renumbering(other)[b as int];
        let st = shifted(t, base);
        assert forall|q: usize| #[trigger] r.step(st, c).contains(q) == shifted(other.step(t, b), base).contains(q) by {
            if r.step(st, c).contains(q) {
                let p = choose|p: usize| st.contains(p) && #[trigger] r.edges(p, c).contains(q);
                let k = (p - base) as usize;
                self.lemma_union_edges_other(other, r, k, b);
                assert(other.edges(k, b).contains((q - base) as usize));
            }
            if shifted(other.step(t, b), base).contains(q) {
                let k = choose|k: usize| t.contains(k) && #[trigger] other.edges(k, b).contains((q - base) as usize);
                self.lemma_union_edges_other(other, r, k, b);
                assert(st.contains((k + base) as usize));
                assert(r.edges((k + base) as usize, c).contains(q));
            }
        }
        assert(r.step(st, c) =~= shifted(other.step(t, b), base));
    }

    /// In the union, the states of `other` do not step on a number that no
    /// symbol of `other` got.
    proof fn lemma_union_step_other_none(&self, other: &ENFA, r: &ENFA, t: Set<usize>, c: usize)
        requires
            self.union_ready(other, r),
            forall|q: usize| #[trigger] t.contains(q) ==> q < other.n(),
            forall|b: int| 0 <= b < other.alphabet@.len() ==> #[trigger] self.union_renumbering(other)[b] != c,
        ensures
            r.step(shifted(t, self.n()), c) == Set::<usize>::empty(),
    {
        let base = self.n();
        let st = shifted(t, base);
        assert forall|q: usize| !#[trigger] r.step(st, c).contains(q) by {
            if r.step(st, c).contains(q) {
                let p = choose|p: usize| st.contains(p) && #[trigger] r.edges(p, c).contains(q);
                self.lemma_union_edges_other_none(other, r, (p - base) as usize, c);
            }
        }
        assert(r.step(st, c) =~= Set::<usize>::empty());
    }

    /// In the union, the new start state does not step on a symbol that reads.
    proof fn lemma_union_step_start(&self, other: &ENFA, r: &ENFA, c: usize)
        requires
            self.union_ready(other, r),
            r.epsilon_index() != Some(c),
        ensures
            r.step(set![r.start_state], c) == Set::<usize>::empty(),
    {
        self.lemma_union_edges_start(other, r, c);
        assert forall|q: usize| !#[trigger] r.step(set![r.start_state], c).contains(q) by {
            if r.step(set![r.start_state], c).contains(q) {
                let p = choose|p: usize| set![r.start_state].contains(p) && #[trigger] r.edges(p, c).contains(q);
            }
        }
        assert(r.step(set![r.start_state], c) =~= Set::<usize>::empty());
    }
}


impl ENFA {
    /// What the automaton reaches by the word `w` of names: nothing where a
    /// name is not in its alphabet.
    pub open spec fn reach_word(&self, w: Seq<Seq<char>>) -> Set<usize> {
        if self.over_alphabet(w) {
            self.reach(self.symbol_indices(w))
        } else {
            Set::empty()
        }
    }

    /// Reading one more name: the closure of the step from what the shorter
    /// word reached, or nothing where the name is not in the alphabet.
    proof fn lemma_reach_word_step(&self, w: Seq<Seq<char>>, c: usize)
        requires
            self.wf(),
            w.len() > 0,
            self.alphabet_index_map@.contains_key(w.last()) ==> c == self.alphabet_index_map@[w.last()],
            !self.alphabet_index_map@.contains_key(w.last()) ==> c >= self.alphabet@.len(),
        ensures
            self.reach_word(w) == self.closure(self.step(self.reach_word(w.drop_last()), c)),
    {
        let w1 = w.drop_last();
        assert forall|i: int| 0 <= i < w1.len() implies w1[i] == w[i] by {}
        if self.over_alphabet(w) {
            assert(self.over_alphabet(w1));
            let su = self.symbol_indices(w);
            assert(su.drop_last() =~= self.symbol_indices(w1));
        } else {
            if self.over_alphabet(w1) {
                assert(!self.alphabet_index_map@.contains_key(w.last()));
                assert forall|q: usize| !#[trigger] self.step(self.reach_word(w1), c).contains(q) by {
                    if self.step(self.reach_word(w1), c).contains(q) {
                        let p = choose|p: usize| self.reach_word(w1).contains(p) && #[trigger] self.edges(p, c).contains(q);
                        assert(self.transitions@[p as int]@.contains_key(c));
                    }
                }
            } else {
                assert forall|q: usize| !#[trigger] self.step(self.reach_word(w1), c).contains(q) by {}
            }
            assert(self.step(self.reach_word(w1), c) =~= Set::<usize>::empty());
            self.lemma_closure_empty(self.epsilon_index());
        }
    }

    /// What the union reaches by a word without epsilon: what `self`
    /// reaches and, numbered after those, what `other` reaches (and, on the
    /// empty word, the new start state).
    proof fn lemma_union_reach(&self, other: &ENFA, r: &ENFA, w: Seq<Seq<char>>)
        requires
            self.union_ready(other, r),
            r.over_alphabet(w),
            forall|i: int| 0 <= i < w.len() ==> #[trigger] w[i] != epsilon_name(),
        ensures
            r.reach(r.symbol_indices(w)) == (if w.len() == 0 { set![r.start_state] } else { Set::<usize>::empty() }).union(
                self.reach_word(w),
            ).union(shifted(other.reach_word(w), self.n())),
        decreases w.len(),
    {
        let base = self.n();
        self.lemma_union_symbols(other, r);
        if w.len() == 0 {
            assert(r.symbol_indices(w) =~= Seq::<usize>::empty());
            assert(self.symbol_indices(w) =~= Seq::<usize>::empty());
            assert(other.symbol_indices(w) =~= Seq::<usize>::empty());
            self.lemma_union_closure_start(other, r);
        } else {
            let w1 = w.drop_last();
            let name = w.last();
            assert forall|i: int| 0 <= i < w1.len() implies #[trigger] w1[i] == w[i] by {}
            assert(r.over_alphabet(w1));
            self.lemma_union_reach(other, r, w1);
            let u = r.symbol_indices(w);
            assert(u.drop_last() =~= r.symbol_indices(w1));
            let c = u.last();
            assert(r.alphabet_index_map@.contains_key(name));
            assert(c == r.alphabet_index_map@[name]);
            let e = r.alphabet_index_map@[epsilon_name()];
            assert(c != e) by {
                assert(r.alphabet@[c as int]@ == name);
                assert(r.alphabet@[e as int]@ == epsilon_name());
                assert(name != epsilon_name());
            }
            let h = if w1.len() == 0 { set![r.start_state] } else { Set::<usize>::empty() };
            let a = self.reach_word(w1);
            let b = other.reach_word(w1);
            assert forall|q: usize| #[trigger] a.contains(q) implies q < self.n() by {
                self.lemma_reach_in_range(self.symbol_indices(w1));
            }
            assert forall|q: usize| #[trigger] b.contains(q) implies q < other.n() by {
                other.lemma_reach_in_range(other.symbol_indices(w1));
            }
            // the new start state does not step
            assert(r.step(h, c) == Set::<usize>::empty()) by {
                if w1.len() == 0 {
                    self.lemma_union_step_start(other, r, c);
                } else {
                    assert(r.step(h, c) =~= Set::<usize>::empty());
                }
            }
            // the states of self step as they did
            self.lemma_union_step_self(other, r, a, c);
            let sa = self.step(a, c);
            self.lemma_reach_word_step(w, c);
            // the states of other step as they did
            let sb = if other.alphabet_index_map@.contains_key(name) {
                other.step(b, other.alphabet_index_map@[name])
            } else {
                Set::<usize>::empty()
            };
            if other.alphabet_index_map@.contains_key(name) {
                let k = other.alphabet_index_map@[name];
                assert(other.alphabet@[k as int]@ == name);
                assert(self.union_renumbering(other)[k as int] == c);
                self.lemma_union_step_other(other, r, b, k);
                other.lemma_reach_word_step(w, k);
            } else {
                assert forall|k: int| 0 <= k < other.alphabet@.len() implies #[trigger] self.union_renumbering(other)[k] != c by {
                    if self.union_renumbering(other)[k] == c {
                        assert(r.alphabet@[c as int]@ == other.alphabet@[k]@);
                        assert(other.alphabet_index_map@.contains_key(other.alphabet@[k]@));
                    }
                }
                self.lemma_union_step_other_none(other, r, b, c);
                assert(shifted(Set::<usize>::empty(), base) =~= Set::<usize>::empty());
                assert(other.reach_word(w) == Set::<usize>::empty()) by {
                    assert(!other.over_alphabet(w));
                }
                other.lemma_closure_empty(other.epsilon_index());
            }
            assert(other.reach_word(w) == other.closure(sb));
            // the step from the union is the union of the steps
            r.lemma_step_union(h.union(a), shifted(b, base), c);
            r.lemma_step_union(h, a, c);
            assert(r.step(h.union(a).union(shifted(b, base)), c) =~= sa.union(shifted(sb, base)));
            // and so is its closure
            self.lemma_step_in_range(a, c);
            assert forall|q: usize| #[trigger] sb.contains(q) implies q < other.n() by {
                if other.alphabet_index_map@.contains_key(name) {
                    other.lemma_step_in_range(b, other.alphabet_index_map@[name]);
                }
            }
            r.lemma_closure_union(r.epsilon_index(), sa, shifted(sb, base));
            self.lemma_union_closure_self(other, r, sa);
            self.lemma_union_closure_other(other, r, sb);
            assert(r.reach(u) == r.closure(r.step(r.reach(u.drop_last()), c)));
            assert(r.reach(u) =~= Set::<usize>::empty().union(self.reach_word(w)).union(shifted(other.reach_word(w), base)));
        }
    }
}


impl ENFA {
    /// The union accepts a word without epsilon exactly when `self` or `other` accepts it.
    proof fn lemma_union_language(&self, other: &ENFA, r: &ENFA, w: Seq<Seq<char>>)
        requires
            self.union_ready(other, r),
            forall|i: int| 0 <= i < w.len() ==> #[trigger] w[i] != epsilon_name(),
        ensures
            r.accepts_word(w) <==> self.accepts_word(w) || other.accepts_word(w),
    {
        let base = self.n();
        self.lemma_union_symbols(other, r);
        if self.over_alphabet(w) {
            assert forall|i: int| 0 <= i < w.len() implies r.alphabet_index_map@.contains_key(#[trigger] w[i]) by {
                assert(self.alphabet_index_map@.contains_key(w[i]));
            }
        }
        if other.over_alphabet(w) {
            assert forall|i: int| 0 <= i < w.len() implies r.alphabet_index_map@.contains_key(#[trigger] w[i]) by {
                assert(other.alphabet_index_map@.contains_key(w[i]));
            }
        }
        if r.over_alphabet(w) {
            self.lemma_union_reach(other, r, w);
            let u = r.symbol_indices(w);
            let h = if w.len() == 0 { set![r.start_state] } else { Set::<usize>::empty() };
            assert forall|q: usize| #[trigger] self.reach_word(w).contains(q) implies q < base by {
                self.lemma_reach_in_range(self.symbol_indices(w));
            }
            assert forall|q: usize| #[trigger] other.reach_word(w).contains(q) implies q < other.n() by {
                other.lemma_reach_in_range(other.symbol_indices(w));
            }
            if r.accepts_indices(u) {
                let q = choose|q: usize| #[trigger] r.reach(u).contains(q) && r.accept_states@.contains(q);
                if self.accept_states@.contains(q) {
                    if !self.reach_word(w).contains(q) {
                        if h.contains(q) {
                            assert(q < base);
                        } else {
                            assert(other.reach_word(w).contains((q - base) as usize));
                        }
                    }
                    assert(self.reach(self.symbol_indices(w)).contains(q));
                } else {
                    let k = (q - base) as usize;
                    assert(other.accept_states@.contains(k));
                    assert(k < other.n());
                    assert(other.reach_word(w).contains(k));
                    assert(other.reach(other.symbol_indices(w)).contains(k));
                }
            }
            if self.accepts_word(w) {
                let su = self.symbol_indices(w);
                let q = choose|q: usize| #[trigger] self.reach(su).contains(q) && self.accept_states@.contains(q);
                assert(r.reach(u).contains(q));
                assert(r.accept_states@.contains(q));
            }
            if other.accepts_word(w) {
                let ou = other.symbol_indices(w);
                let k = choose|k: usize| #[trigger] other.reach(ou).contains(k) && other.accept_states@.contains(k);
                let q = (k + base) as usize;
                assert(shifted(other.reach_word(w), base).contains(q));
                assert(r.reach(u).contains(q));
                assert(shifted(other.accept_states@, base).contains(q));
                assert(r.accept_states@.contains(q));
            }
        }
    }
}

/// The map from each name of `names` to the last place where it occurs.
pub open spec fn last_places(names: Seq<Seq<char>>) -> Map<Seq<char>, usize>
    decreases names.len(),
{
    if names.len() == 0 {
        Map::empty()
    } else {
        last_places(names.drop_last()).insert(names.last(), (names.len() - 1) as usize)
    }
}

/// The last places point at their names and cover every name.
pub proof fn lemma_last_places(names: Seq<Seq<char>>)
    requires
        names.len() <= usize::MAX,
    ensures
        indexes(last_places(names), names),
        forall|k: Seq<char>| #[trigger] last_places(names).contains_key(k) <==> names.contains(k),
    decreases names.len(),
{
    if names.len() > 0 {
        let rest = names.drop_last();
        lemma_last_places(rest);
        assert forall|k: Seq<char>| #[trigger] last_places(names).contains_key(k) <==> names.contains(k) by {
            if rest.contains(k) {
                let i = choose|i: int| 0 <= i < rest.len() && rest[i] == k;
                assert(names[i] == k);
            }
            if names.contains(k) && k != names.last() {
                let i = choose|i: int| 0 <= i < names.len() && names[i] == k;
                assert(rest[i] == k);
            }
            if k == names.last() {
                assert(names[names.len() - 1] == k);
            }
        }
        assert forall|k: Seq<char>| #[trigger] last_places(names).contains_key(k) implies last_places(names)[k] < names.len()
            && names[last_places(names)[k] as int] == k by {
            if k != names.last() {
                assert(rest[last_places(rest)[k] as int] == k);
                assert(names[last_places(rest)[k] as int] == rest[last_places(rest)[k] as int]);
            }
        }
    }
}

/// Whether `new_row` is `row` with every symbol `b` renumbered to `ren[b]`
/// where that is a number and dropped where not (where two symbols get one
/// number, with the targets of one of them).
pub open spec fn renumbered_row(row: Map<usize, Set<usize>>, ren: Seq<Option<usize>>, new_row: Map<usize, Set<usize>>) -> bool {
    &&& forall|b: usize| #[trigger] row.contains_key(b) && ren[b as int] is Some ==> new_row.contains_key(ren[b as int]->0)
    &&& forall|c: usize| #[trigger] new_row.contains_key(c) ==> exists|b: usize| #[trigger] row.contains_key(b) && ren[b as int] == Some(c) && new_row[c] == row[b]
}

/// `row` with every symbol renumbered by `ren`, those without a number dropped.
fn renumber_row(row: &IndexSetMap, ren: &Vec<Option<usize>>) -> (r: IndexSetMap)
    requires
        forall|b: usize| #[trigger] row@.contains_key(b) ==> b < ren@.len(),
    ensures
        renumbered_row(row@, ren@, r@),
{
    let keys = row.keys();
    let mut r = IndexSetMap::new();
    let mut j: usize = 0;
    while j < keys.len()
        invariant
            j <= keys@.len(),
            keys@.to_set() == row@.dom(),
            forall|b: usize| #[trigger] row@.contains_key(b) ==> b < ren@.len(),
            forall|k: int| 0 <= k < j && ren@[keys@[k] as int] is Some ==> r@.contains_key(ren@[#[trigger] keys@[k] as int]->0),
            forall|c: usize| #[trigger] r@.contains_key(c) ==> exists|b: usize| #[trigger] row@.contains_key(b) && ren@[b as int] == Some(c) && r@[c] == row@[b],
        decreases keys@.len() - j,
    {
        let b = keys[j];
        proof {
            assert(keys@.to_set().contains(b));
        }
        let ghost old_r = r@;
        match ren[b] {
            None => {},
            Some(c) => {
                let targets = row.targets(b);
                let mut set = IndexSet::new();
                let mut t: usize = 0;
                while t < targets.len()
                    invariant
                        t <= targets@.len(),
                        forall|q: usize| #[trigger] set@.contains(q) <==> exists|k: int| 0 <= k < t && targets@[k] == q,
                    decreases targets@.len() - t,
                {
                    set.insert(targets[t]);
                    proof {
                        assert forall|q: usize| #[trigger] set@.contains(q) <==> exists|k: int| 0 <= k < t + 1 && targets@[k] == q by {
                            if q == targets@[t as int] {
                                assert(exists|k: int| 0 <= k < t + 1 && targets@[k] == q);
                            }
                        }
                    }
                    t = t + 1;
                }
                proof {
                    assert forall|q: usize| #[trigger] set@.contains(q) == row@[b].contains(q) by {
                        if row@[b].contains(q) {
                            assert(targets@.to_set().contains(q));
                            let k = choose|k: int| 0 <= k < targets@.len() && targets@[k] == q;
                        }
                        if set@.contains(q) {
                            let k = choose|k: int| 0 <= k < t && targets@[k] == q;
                            assert(targets@.to_set().contains(q));
                        }
                    }
                    assert(set@ =~= row@[b]);
                }
                r.insert(c, set);
                proof {
                    assert forall|c2: usize| #[trigger] r@.contains_key(c2) implies exists|b2: usize| #[trigger] row@.contains_key(b2) && ren@[b2 as int] == Some(c2) && r@[c2] == row@[b2] by {
                        if c2 != c {
                            assert(old_r.contains_key(c2));
                        } else {
                            assert(row@.contains_key(b) && ren@[b as int] == Some(c2) && r@[c2] == row@[b]);
                        }
                    }
                }
            },
        }
        proof {
            assert forall|k: int| 0 <= k < j + 1 && ren@[keys@[k] as int] is Some implies r@.contains_key(ren@[#[trigger] keys@[k] as int]->0) by {
                if k < j {
                    assert(old_r.contains_key(ren@[keys@[k] as int]->0));
                }
            }
        }
        j = j + 1;
    }
    proof {
        assert forall|b: usize| #[trigger] row@.contains_key(b) && ren@[b as int] is Some implies r@.contains_key(ren@[b as int]->0) by {
            assert(keys@.to_set().contains(b));
            let k = choose|k: int| 0 <= k < keys@.len() && keys@[k] == b;
            assert(ren@[keys@[k] as int] is Some);
        }
    }
    r
}

impl ENFA {
    /// The number, by the last places of `names`, of each symbol of the
    /// alphabet (none where `names` lacks its name).
    pub open spec fn alphabet_renumbering(&self, names: Seq<Seq<char>>) -> Seq<Option<usize>> {
        Seq::new(
            self.alphabet@.len(),
            |i: int|
                if last_places(names).contains_key(self.alphabet@[i]@) {
                    Some(last_places(names)[self.alphabet@[i]@])
                } else {
                    None
                },
        )
    }

    /// Whether `r` is `self` with its symbols renumbered by `alphabet`.
    pub open spec fn is_realphabeted(&self, alphabet: Seq<InputSymbol>, r: ENFA) -> bool {
        &&& r.states@ == self.states@
        &&& r.state_index_map@ == self.state_index_map@
        &&& r.start_state == self.start_state
        &&& r.accept_states@ == self.accept_states@
        &&& r.alphabet@ == alphabet
        &&& r.alphabet_index_map@ == last_places(word_of(alphabet))
        &&& r.transitions@.len() == self.transitions@.len()
        &&& forall|p: int| 0 <= p < self.transitions@.len() ==> renumbered_row(
            self.transitions@[p]@,
            self.alphabet_renumbering(word_of(alphabet)),
            #[trigger] r.transitions@[p]@,
        )
    }

    /// The same automaton with its symbols renumbered by `alphabet`: the
    /// alphabet becomes `alphabet`, each name numbered by its last place
    /// there, and moves on symbols whose name `alphabet` lacks dropped.
    pub fn with_alphabet(&self, alphabet: &Vec<InputSymbol>) -> (r: Self)
        requires
            self.wf(),
        ensures
            r.wf(),
            self.is_realphabeted(alphabet@, r),
    {
        let ghost names = word_of(alphabet@);
        let mut alphabet_index_map = SymbolIndexMap::new();
        let mut i: usize = 0;
        proof {
            assert(names.take(0) =~= Seq::<Seq<char>>::empty());
            assert(last_places(Seq::<Seq<char>>::empty()) =~= Map::<Seq<char>, usize>::empty());
        }
        while i < alphabet.len()
            invariant
                names == word_of(alphabet@),
                i <= alphabet@.len(),
                alphabet_index_map@ == last_places(names.take(i as int)),
            decreases alphabet@.len() - i,
        {
            alphabet_index_map.insert(alphabet[i].clone(), i);
            proof {
                assert(names.take(i + 1).drop_last() =~= names.take(i as int));
                assert(names[i as int] == alphabet@[i as int]@);
            }
            i = i + 1;
        }
        let na = alphabet.len();
        proof {
            assert(names.take(i as int) =~= names);
            assert(names.len() == na);
            lemma_last_places(names);
        }
        let ghost m = last_places(names);
        let mut ren: Vec<Option<usize>> = Vec::new();
        let mut k: usize = 0;
        while k < self.alphabet.len()
            invariant
                k <= self.alphabet@.len(),
                alphabet_index_map@ == m,
                m == last_places(names),
                ren@.len() == k,
                forall|j: int| 0 <= j < k ==> #[trigger] ren@[j] == self.alphabet_renumbering(names)[j],
            decreases self.alphabet@.len() - k,
        {
            ren.push(alphabet_index_map.get(&self.alphabet[k]));
            k = k + 1;
        }
        proof {
            assert(ren@ =~= self.alphabet_renumbering(names));
        }
        let mut new_transitions: Vec<IndexSetMap> = Vec::new();
        let mut p: usize = 0;
        while p < self.transitions.len()
            invariant
                self.wf(),
                ren@ == self.alphabet_renumbering(names),
                p <= self.transitions@.len(),
                new_transitions@.len() == p,
                forall|j: int| 0 <= j < p ==> renumbered_row(self.transitions@[j]@, ren@, #[trigger] new_transitions@[j]@),
            decreases self.transitions@.len() - p,
        {
            proof {
                assert forall|b: usize| #[trigger] self.transitions@[p as int]@.contains_key(b) implies b < ren@.len() by {}
            }
            let row = renumber_row(&self.transitions[p], &ren);
            new_transitions.push(row);
            p = p + 1;
        }
        let r = ENFA::new(
            self.state_index_map.clone(),
            alphabet_index_map,
            clone_states(&self.states),
            clone_terminals(alphabet),
            new_transitions,
            self.start_state,
            self.accept_states.clone(),
        );
        proof {
            assert forall|p: int, c: usize| 0 <= p < r.transitions@.len() && #[trigger] r.transitions@[p]@.contains_key(c) implies c < r.alphabet@.len()
                && forall|q: usize| #[trigger] r.transitions@[p]@[c].contains(q) ==> q < r.states@.len() by {
                assert(renumbered_row(self.transitions@[p]@, ren@, new_transitions@[p]@));
                let b = choose|b: usize| #[trigger] self.transitions@[p]@.contains_key(b) && ren@[b as int] == Some(c) && new_transitions@[p]@[c] == self.transitions@[p]@[b];
                assert(m.contains_key(self.alphabet@[b as int]@));
            }
            assert forall|x: Seq<char>| #[trigger] r.alphabet_index_map@.contains_key(x) implies r.alphabet_index_map@[x] < r.alphabet@.len()
                && r.alphabet@[r.alphabet_index_map@[x] as int]@ == x by {
                assert(names[m[x] as int] == x);
            }
        }
        r
    }

    /// Whether `r` is `self` with the names of its alphabet that `alphabet`
    /// lacks appended once more, each once, in some order (the alphabet map
    /// is left as it was).
    pub open spec fn is_alphabet_extended(&self, alphabet: Seq<InputSymbol>, r: ENFA) -> bool {
        let added = r.alphabet@.skip(self.alphabet@.len() as int);
        &&& r.alphabet@.len() >= self.alphabet@.len()
        &&& r.alphabet@.take(self.alphabet@.len() as int) == self.alphabet@
        &&& word_of(added).no_duplicates()
        &&& word_of(added).to_set() == word_of(self.alphabet@).to_set().difference(word_of(alphabet).to_set())
        &&& r.states@ == self.states@
        &&& r.state_index_map@ == self.state_index_map@
        &&& r.alphabet_index_map@ == self.alphabet_index_map@
        &&& r.transitions@ == self.transitions@
        &&& r.start_state == self.start_state
        &&& r.accept_states@ == self.accept_states@
    }

    /// Appends to the alphabet the names of the alphabet that `alphabet`
    /// lacks, each once, in the order in which a set of them is walked.
    pub fn extend_alphabet(&mut self, alphabet: &Vec<InputSymbol>)
        requires
            old(self).wf(),
        ensures
            final(self).wf(),
            old(self).is_alphabet_extended(alphabet@, *final(self)),
    {
        let mut own = NameSet::new();
        let mut i: usize = 0;
        proof {
            assert(word_of(self.alphabet@).take(0).to_set() =~= Set::<Seq<char>>::empty());
        }
        while i < self.alphabet.len()
            invariant
                i <= self.alphabet@.len(),
                own@ == word_of(self.alphabet@).take(i as int).to_set(),
            decreases self.alphabet@.len() - i,
        {
            own.insert(self.alphabet[i].clone());
            proof {
                assert(word_of(self.alphabet@).take(i + 1) =~= word_of(self.alphabet@).take(i as int).push(self.alphabet@[i as int]@));
                word_of(self.alphabet@).take(i as int).lemma_push_to_set_commute(self.alphabet@[i as int]@);
            }
            i = i + 1;
        }
        let mut other = NameSet::new();
        let mut j: usize = 0;
        proof {
            assert(word_of(alphabet@).take(0).to_set() =~= Set::<Seq<char>>::empty());
        }
        while j < alphabet.len()
            invariant
                j <= alphabet@.len(),
                other@ == word_of(alphabet@).take(j as int).to_set(),
            decreases alphabet@.len() - j,
        {
            other.insert(alphabet[j].clone());
            proof {
                assert(word_of(alphabet@).take(j + 1) =~= word_of(alphabet@).take(j as int).push(alphabet@[j as int]@));
                word_of(alphabet@).take(j as int).lemma_push_to_set_commute(alphabet@[j as int]@);
            }
            j = j + 1;
        }
        proof {
            assert(word_of(self.alphabet@).take(i as int) =~= word_of(self.alphabet@));
            assert(word_of(alphabet@).take(j as int) =~= word_of(alphabet@));
        }
        let list = own.to_vec();
        let ghost a0 = self.alphabet@;
        let ghost wl = word_of(list@);
        let mut k: usize = 0;
        while k < list.len()
            invariant
                wl == word_of(list@),
                wl.no_duplicates(),
                wl.to_set() == own@,
                own@ == word_of(a0).to_set(),
                other@ == word_of(alphabet@).to_set(),
                k <= list@.len(),
                self.alphabet@.len() >= a0.len(),
                self.alphabet@.take(a0.len() as int) == a0,
                word_of(self.alphabet@.skip(a0.len() as int)) == wl.take(k as int).filter(|x: Seq<char>| !other@.contains(x)),
                self.states@ == old(self).states@,
                self.state_index_map@ == old(self).state_index_map@,
                self.alphabet_index_map@ == old(self).alphabet_index_map@,
                self.transitions@ == old(self).transitions@,
                self.start_state == old(self).start_state,
                self.accept_states@ == old(self).accept_states@,
                a0 == old(self).alphabet@,
            decreases list@.len() - k,
        {
            let ghost before = self.alphabet@;
            let x = &list[k];
            proof {
                assert(wl.take(k + 1) =~= wl.take(k as int).push(wl[k as int]));
                wl.take(k as int).lemma_filter_push(wl[k as int], |x: Seq<char>| !other@.contains(x));
                assert(wl[k as int] == x@);
            }
            if !other.contains(x) {
                let y = x.clone();
                self.alphabet.push(y);
                proof {
                    assert(self.alphabet@.take(a0.len() as int) =~= before.take(a0.len() as int));
                    assert(self.alphabet@.skip(a0.len() as int) =~= before.skip(a0.len() as int).push(y));
                    assert(word_of(self.alphabet@.skip(a0.len() as int)) =~= word_of(before.skip(a0.len() as int)).push(x@));
                }
            }
            k = k + 1;
        }
        proof {
            assert(wl.take(k as int) =~= wl);
            let added = word_of(self.alphabet@.skip(a0.len() as int));
            let f = wl.filter(|x: Seq<char>| !other@.contains(x));
            assert(added == f);
            lemma_filter_distinct(wl, other@);
            assert forall|x: Seq<char>| #[trigger] f.to_set().contains(x) == word_of(a0).to_set().difference(word_of(alphabet@).to_set()).contains(x) by {
                if f.to_set().contains(x) {
                    assert(f.contains(x));
                    wl.lemma_filter_contains_rev(|x: Seq<char>| !other@.contains(x), x);
                    assert(wl.to_set().contains(x));
                    wl.filter_lemma(|x: Seq<char>| !other@.contains(x));
                    let i = choose|i: int| 0 <= i < f.len() && f[i] == x;
                    assert(!other@.contains(f[i]));
                }
                if word_of(a0).to_set().difference(word_of(alphabet@).to_set()).contains(x) {
                    assert(own@.contains(x));
                    assert(wl.to_set().contains(x));
                    let i = choose|i: int| 0 <= i < wl.len() && wl[i] == x;
                    wl.lemma_filter_contains(|x: Seq<char>| !other@.contains(x), i);
                    assert(f.contains(x));
                }
            }
            assert(f.to_set() =~= word_of(a0).to_set().difference(word_of(alphabet@).to_set()));
            assert forall|s: Seq<char>| #[trigger] self.alphabet_index_map@.contains_key(s) implies self.alphabet_index_map@[s] < self.alphabet@.len()
                && self.alphabet@[self.alphabet_index_map@[s] as int]@ == s by {
                assert(old(self).alphabet_index_map@.contains_key(s));
                assert(self.alphabet@.take(a0.len() as int)[self.alphabet_index_map@[s] as int] == a0[self.alphabet_index_map@[s] as int]);
            }
            assert forall|p: int, a: usize| 0 <= p < self.transitions@.len() && #[trigger] self.transitions@[p]@.contains_key(a) implies a < self.alphabet@.len()
                && forall|q: usize| #[trigger] self.transitions@[p]@[a].contains(q) ==> q < self.states@.len() by {
                assert(old(self).transitions@[p]@.contains_key(a));
            }
        }
    }
}

/// Keeping the names that a set lacks keeps them distinct.
proof fn lemma_filter_distinct(s: Seq<Seq<char>>, out: Set<Seq<char>>)
    requires
        s.no_duplicates(),
    ensures
        s.filter(|x: Seq<char>| !out.contains(x)).no_duplicates(),
    decreases s.len(),
{
    reveal(Seq::filter);
    if s.len() > 0 {
        let rest = s.drop_last();
        assert forall|i: int, j: int| 0 <= i < j < rest.len() implies rest[i] != rest[j] by {
            assert(rest[i] == s[i] && rest[j] == s[j]);
        }
        lemma_filter_distinct(rest, out);
        let fr = rest.filter(|x: Seq<char>| !out.contains(x));
        if !out.contains(s.last()) {
            assert(!fr.contains(s.last())) by {
                if fr.contains(s.last()) {
                    rest.lemma_filter_contains_rev(|x: Seq<char>| !out.contains(x), s.last());
                    let j = choose|j: int| 0 <= j < rest.len() && rest[j] == s.last();
                    assert(s[j] == s[s.len() - 1]);
                }
            }
        }
    }
}

/// Whether `new_row` has the symbols of `row`, each with its targets moved up by `base`.
pub open spec fn shifted_row(row: Map<usize, Set<usize>>, base: nat, new_row: Map<usize, Set<usize>>) -> bool {
    &&& new_row.dom() == row.dom()
    &&& forall|a: usize| #[trigger] new_row.contains_key(a) ==> new_row[a] == shifted(row[a], base)
}

/// `row` with every target moved up by `base`.
fn shift_row(row: &IndexSetMap, base: usize) -> (r: IndexSetMap)
    requires
        forall|a: usize, q: usize| #[trigger] row@.contains_key(a) && #[trigger] row@[a].contains(q) ==> q + base <= usize::MAX,
    ensures
        shifted_row(row@, base as nat, r@),
{
    let keys = row.keys();
    let mut r = IndexSetMap::new();
    let mut j: usize = 0;
    while j < keys.len()
        invariant
            j <= keys@.len(),
            keys@.to_set() == row@.dom(),
            keys@.no_duplicates(),
            forall|a: usize, q: usize| #[trigger] row@.contains_key(a) && #[trigger] row@[a].contains(q) ==> q + base <= usize::MAX,
            forall|a: usize| #[trigger] r@.contains_key(a) <==> exists|k: int| 0 <= k < j && keys@[k] == a,
            forall|a: usize| #[trigger] r@.contains_key(a) ==> row@.contains_key(a) && r@[a] == shifted(row@[a], base as nat),
        decreases keys@.len() - j,
    {
        let a = keys[j];
        proof {
            assert(keys@.to_set().contains(a));
        }
        let targets = row.targets(a);
        proof {
            assert forall|i: int| 0 <= i < targets@.len() implies #[trigger] targets@[i] + base <= usize::MAX by {
                assert(targets@.to_set().contains(targets@[i]));
            }
        }
        let mut set = IndexSet::new();
        add_shifted(&mut set, &targets, base);
        let ghost old_r = r@;
        r.insert(a, set);
        proof {
            assert(set@ =~= shifted(row@[a], base as nat));
            assert forall|x: usize| #[trigger] r@.contains_key(x) <==> exists|k: int| 0 <= k < j + 1 && keys@[k] == x by {
                if x == a {
                    assert(keys@[j as int] == x);
                }
                if exists|k: int| 0 <= k < j + 1 && keys@[k] == x {
                    let k = choose|k: int| 0 <= k < j + 1 && keys@[k] == x;
                    if k < j {
                        assert(old_r.contains_key(x));
                    }
                }
            }
        }
        j = j + 1;
    }
    proof {
        assert forall|a: usize| #[trigger] r@.dom().contains(a) == row@.dom().contains(a) by {
            if row@.contains_key(a) {
                assert(keys@.to_set().contains(a));
                let k = choose|k: int| 0 <= k < keys@.len() && keys@[k] == a;
            }
        }
        assert(r@.dom() =~= row@.dom());
    }
    r
}

impl ENFA {
    /// Whether `r` is the concatenation of `self` and `other` as `concat`
    /// builds it where the alphabets agree: the states of `self` then those
    /// of `other` numbered after them; every accept state of `self` moving
    /// without reading to the start of `other`; the accept states of
    /// `other`; and epsilon appended to the alphabet where it is missing.
    pub open spec fn is_concat(&self, other: &ENFA, r: ENFA) -> bool {
        let n = self.n();
        let e = r.alphabet_index_map@[epsilon_name()];
        &&& r.states@ == self.states@ + other.states@
        &&& r.state_index_map@ == self.state_index_map@
        &&& (r.alphabet_index_map@, word_of(r.alphabet@)) == self.with_epsilon_symbols()
        &&& r.start_state == self.start_state
        &&& r.accept_states@ == shifted(other.accept_states@, n)
        &&& r.transitions@.len() == n + other.n()
        &&& forall|p: int| 0 <= p < n ==> #[trigger] r.transitions@[p]@ == (if self.accept_states@.contains(p as usize) {
            self.transitions@[p]@.insert(
                e,
                (if self.transitions@[p]@.contains_key(e) { self.transitions@[p]@[e] } else { Set::<usize>::empty() }).insert(
                    (other.start_state + n) as usize,
                ),
            )
        } else {
            self.transitions@[p]@
        })
        &&& forall|q: int| 0 <= q < other.n() ==> shifted_row(other.transitions@[q]@, n, #[trigger] r.transitions@[n + q]@)
    }

    /// Concatenation where the alphabets agree.
    fn concat_aligned(&mut self, other: &ENFA)
        requires
            old(self).wf(),
            other.wf(),
            same_names(old(self).alphabet@, other.alphabet@),
            old(self).n() + other.n() <= usize::MAX,
        ensures
            final(self).wf(),
            old(self).is_concat(other, *final(self)),
    {
        let ghost s0 = *self;
        let offset = self.states.len();
        let mut q: usize = 0;
        while q < other.transitions.len()
            invariant
                other.wf(),
                offset == s0.n(),
                s0.n() + other.n() <= usize::MAX,
                q <= other.n(),
                self.transitions@.len() == offset + q,
                forall|p: int| 0 <= p < offset ==> #[trigger] self.transitions@[p] == s0.transitions@[p],
                forall|k: int| 0 <= k < q ==> shifted_row(other.transitions@[k]@, offset as nat, #[trigger] self.transitions@[offset + k]@),
                self.states@ == s0.states@,
                self.alphabet@ == s0.alphabet@,
                self.alphabet_index_map@ == s0.alphabet_index_map@,
                self.state_index_map@ == s0.state_index_map@,
                self.start_state == s0.start_state,
                self.accept_states@ == s0.accept_states@,
            decreases other.n() - q,
        {
            proof {
                assert forall|a: usize, t: usize| #[trigger] other.transitions@[q as int]@.contains_key(a) && #[trigger] other.transitions@[q as int]@[a].contains(t) implies t + offset <= usize::MAX by {}
            }
            let row = shift_row(&other.transitions[q], offset);
            let ghost before = self.transitions@;
            self.transitions.push(row);
            proof {
                assert forall|k: int| 0 <= k < q + 1 implies shifted_row(other.transitions@[k]@, offset as nat, #[trigger] self.transitions@[offset + k]@) by {
                    if k < q {
                        assert(self.transitions@[offset + k] == before[offset + k]);
                    }
                }
            }
            q = q + 1;
        }
        let ghost t1 = self.transitions@;
        let mut i: usize = 0;
        while i < other.states.len()
            invariant
                i <= other.n(),
                self.states@ == s0.states@ + other.states@.take(i as int),
                self.transitions@ == t1,
                self.alphabet@ == s0.alphabet@,
                self.alphabet_index_map@ == s0.alphabet_index_map@,
                self.state_index_map@ == s0.state_index_map@,
                self.start_state == s0.start_state,
                self.accept_states@ == s0.accept_states@,
            decreases other.n() - i,
        {
            self.states.push(other.states[i].clone());
            proof {
                assert(other.states@.take(i + 1) =~= other.states@.take(i as int).push(other.states@[i as int]));
            }
            i = i + 1;
        }
        proof {
            assert(other.states@.take(i as int) =~= other.states@);
        }
        let epsilon_index = match self.alphabet_index_map.get(&epsilon()) {
            Some(e) => e,
            None => {
                let k = self.alphabet.len();
                let ghost a0 = self.alphabet@;
                self.alphabet_index_map.insert(epsilon(), k);
                self.alphabet.push(epsilon());
                proof {
                    assert(word_of(self.alphabet@) =~= word_of(a0).push(epsilon_name()));
                }
                k
            },
        };
        let ghost am = self.alphabet_index_map@;
        let ghost al = self.alphabet@;
        let finals = self.accept_states.to_vec();
        proof {
            assert(am.contains_key(epsilon_name()) && am[epsilon_name()] == epsilon_index);
            assert((am, word_of(al)) == s0.with_epsilon_symbols());
            assert(q == other.n());
            assert(finals@.to_set() == s0.accept_states@);
            assert forall|p: int| 0 <= p < offset implies #[trigger] self.transitions@[p]@ == s0.transitions@[p]@ by {
                assert(t1[p] == s0.transitions@[p]);
            }
        }
        let target = other.start_state + offset;
        let mut k: usize = 0;
        while k < finals.len()
            invariant
                s0.wf(),
                offset == s0.n(),
                finals@.to_set() == s0.accept_states@,
                finals@.no_duplicates(),
                k <= finals@.len(),
                self.transitions@.len() == offset + other.n(),
                forall|p: int| 0 <= p < offset ==> #[trigger] self.transitions@[p]@ == (if exists|j: int| 0 <= j < k && finals@[j] == p {
                    s0.transitions@[p]@.insert(
                        epsilon_index,
                        (if s0.transitions@[p]@.contains_key(epsilon_index) { s0.transitions@[p]@[epsilon_index] } else { Set::<usize>::empty() }).insert(target),
                    )
                } else {
                    s0.transitions@[p]@
                }),
                forall|k2: int| 0 <= k2 < other.n() ==> shifted_row(other.transitions@[k2]@, offset as nat, #[trigger] self.transitions@[offset + k2]@),
                self.alphabet_index_map@ == am,
                self.alphabet@ == al,
                am.contains_key(epsilon_name()) && am[epsilon_name()] == epsilon_index,
                (am, word_of(al)) == s0.with_epsilon_symbols(),
                self.states@ == s0.states@ + other.states@,
                self.state_index_map@ == s0.state_index_map@,
                self.start_state == s0.start_state,
                self.accept_states@ == s0.accept_states@,
                other.wf(),
            decreases finals@.len() - k,
        {
            let f = finals[k];
            proof {
                assert(finals@.to_set().contains(f));
            }
            let ghost before = self.transitions@;
            self.transitions[f].add(epsilon_index, target);
            proof {
                assert forall|p: int| 0 <= p < offset implies #[trigger] self.transitions@[p]@ == (if exists|j: int| 0 <= j < k + 1 && finals@[j] == p {
                    s0.transitions@[p]@.insert(
                        epsilon_index,
                        (if s0.transitions@[p]@.contains_key(epsilon_index) { s0.transitions@[p]@[epsilon_index] } else { Set::<usize>::empty() }).insert(target),
                    )
                } else {
                    s0.transitions@[p]@
                }) by {
                    if p == f {
                        assert(finals@[k as int] == p);
                        assert(!exists|j: int| 0 <= j < k && finals@[j] == p) by {
                            if exists|j: int| 0 <= j < k && finals@[j] == p {
                                let j = choose|j: int| 0 <= j < k && finals@[j] == p;
                                assert(finals@[j] == finals@[k as int]);
                            }
                        }
                    } else {
                        assert(self.transitions@[p] == before[p]);
                        if exists|j: int| 0 <= j < k + 1 && finals@[j] == p {
                            let j = choose|j: int| 0 <= j < k + 1 && finals@[j] == p;
                            assert(j < k);
                        }
                    }
                }
                assert forall|k2: int| 0 <= k2 < other.n() implies shifted_row(other.transitions@[k2]@, offset as nat, #[trigger] self.transitions@[offset + k2]@) by {
                    assert(self.transitions@[offset + k2] == before[offset + k2]);
                }
            }
            k = k + 1;
        }
        let other_accept = other.accept_states.to_vec();
        proof {
            assert forall|j: int| 0 <= j < other_accept@.len() implies #[trigger] other_accept@[j] + offset <= usize::MAX by {
                assert(other_accept@.to_set().contains(other_accept@[j]));
            }
        }
        let mut accept = IndexSet::new();
        add_shifted(&mut accept, &other_accept, offset);
        self.accept_states = accept;
        proof {
            assert(self.accept_states@ =~= shifted(other.accept_states@, offset as nat));
            let r = *self;
            let n = s0.n();
            assert(r.alphabet_index_map@[epsilon_name()] == epsilon_index);
            assert forall|p: int| 0 <= p < n implies #[trigger] r.transitions@[p]@ == (if s0.accept_states@.contains(p as usize) {
                s0.transitions@[p]@.insert(
                    epsilon_index,
                    (if s0.transitions@[p]@.contains_key(epsilon_index) { s0.transitions@[p]@[epsilon_index] } else { Set::<usize>::empty() }).insert(target),
                )
            } else {
                s0.transitions@[p]@
            }) by {
                if s0.accept_states@.contains(p as usize) {
                    assert(finals@.to_set().contains(p as usize));
                    let j = choose|j: int| 0 <= j < finals@.len() && finals@[j] == p as usize;
                    assert(finals@[j] == p);
                } else {
                    if exists|j: int| 0 <= j < k && finals@[j] == p {
                        let j = choose|j: int| 0 <= j < k && finals@[j] == p;
                        assert(finals@.to_set().contains(finals@[j]));
                    }
                }
            }
            // well-formedness
            assert forall|x: usize| #[trigger] r.accept_states@.contains(x) implies x < r.states@.len() by {
                assert(other.accept_states@.contains((x - n) as usize));
            }
            assert forall|p: int, a: usize| 0 <= p < r.transitions@.len() && #[trigger] r.transitions@[p]@.contains_key(a) implies a < r.alphabet@.len()
                && forall|t: usize| #[trigger] r.transitions@[p]@[a].contains(t) ==> t < r.states@.len() by {
                if p < n {
                    if a != epsilon_index {
                        assert(s0.transitions@[p]@.contains_key(a));
                    } else {
                        assert forall|t: usize| #[trigger] r.transitions@[p]@[a].contains(t) implies t < r.states@.len() by {
                            if t != target {
                                assert(s0.transitions@[p]@.contains_key(a));
                                assert(s0.transitions@[p]@[a].contains(t));
                            }
                        }
                    }
                } else {
                    let q = p - n;
                    assert(shifted_row(other.transitions@[q]@, n, r.transitions@[n + q]@));
                    assert(other.transitions@[q]@.contains_key(a));
                    assert(other.alphabet@.len() == s0.alphabet@.len());
                    assert forall|t: usize| #[trigger] r.transitions@[p]@[a].contains(t) implies t < r.states@.len() by {
                        assert(other.transitions@[q]@[a].contains((t - n) as usize));
                    }
                }
            }
            assert forall|x: Seq<char>| #[trigger] r.alphabet_index_map@.contains_key(x) implies r.alphabet_index_map@[x] < r.alphabet@.len()
                && r.alphabet@[r.alphabet_index_map@[x] as int]@ == x by {
                if s0.alphabet_index_map@.contains_key(x) {
                    assert(r.alphabet@[s0.alphabet_index_map@[x] as int] == s0.alphabet@[s0.alphabet_index_map@[x] as int]);
                } else {
                    assert(word_of(r.alphabet@)[s0.alphabet@.len() as int] == epsilon_name());
                }
            }
            assert forall|x: Seq<char>| #[trigger] r.state_index_map@.contains_key(x) implies r.state_index_map@[x] < r.states@.len()
                && r.states@[r.state_index_map@[x] as int]@ == x by {
                assert(s0.state_index_map@.contains_key(x));
            }
        }
    }

    /// Whether `r` is the concatenation of `self` and `other` where the
    /// alphabets differ: `self` with its alphabet extended (`mid`), and
    /// `other` renumbered to that alphabet (`o2`), concatenated.
    pub open spec fn concat_route(&self, other: &ENFA, mid: ENFA, o2: ENFA, r: ENFA) -> bool {
        &&& self.is_alphabet_extended(other.alphabet@, mid)
        &&& other.is_realphabeted(mid.alphabet@, o2)
        &&& mid.is_concat(&o2, r)
    }

    /// Appends `other`: every accept state moves without reading to the
    /// start of `other` (whose states are numbered after these), and the
    /// accept states become those of `other`. Where the alphabets differ,
    /// the alphabet is first extended and `other` renumbered to it.
    pub fn concat(&mut self, other: &ENFA)
        requires
            old(self).wf(),
            other.wf(),
            old(self).n() + other.n() <= usize::MAX,
        ensures
            final(self).wf(),
            same_names(old(self).alphabet@, other.alphabet@) ==> old(self).is_concat(other, *final(self)),
            !same_names(old(self).alphabet@, other.alphabet@) ==> exists|mid: ENFA, o2: ENFA| #[trigger] old(self).concat_route(other, mid, o2, *final(self)),
    {
        if same_alphabet(&self.alphabet, &other.alphabet) {
            self.concat_aligned(other);
        } else {
            let ghost s0 = *self;
            self.extend_alphabet(&other.alphabet);
            let ghost mid = *self;
            let o2 = other.with_alphabet(&self.alphabet);
            proof {
                assert(same_names(self.alphabet@, o2.alphabet@));
            }
            self.concat_aligned(&o2);
            proof {
                assert(s0.concat_route(other, mid, o2, *self));
            }
        }
    }
}

} // verus!
