//! Hash-based sets and maps of the automata, kept in `hashbrown` containers.
//! Each container is opaque to Verus; its contents are named by an
//! uninterpreted spec function and every operation states its effect on them.
use crate::cfg::cfg::{IntersectionSymbolIndex, SymbolIndex, CFG};
use crate::cfg::variable::Variable;
use crate::fa::state::State;
use crate::input_symbol::InputSymbol;
use vstd::prelude::*;

verus! {

/// The map with no entries, from indices to indices.
pub open spec fn no_index_entries() -> Map<usize, usize> {
    Map::empty()
}

/// The map with no entries, from indices to sets of indices.
pub open spec fn no_index_set_entries() -> Map<usize, Set<usize>> {
    Map::empty()
}

/// The set with no pairs.
pub open spec fn no_pairs() -> Set<(usize, usize)> {
    Set::empty()
}

/// The map with no entries, from names to indices.
pub open spec fn no_name_entries() -> Map<Seq<char>, usize> {
    Map::empty()
}

/// A set of indices, stored in a `hashbrown::HashSet<usize>`.
#[verifier::external_body]
pub struct IndexSet {
    inner: hashbrown::HashSet<usize>,
}

/// The indices that an `IndexSet` holds.
pub uninterp spec fn index_set_contents(s: IndexSet) -> Set<usize>;

impl View for IndexSet {
    type V = Set<usize>;

    open spec fn view(&self) -> Set<usize> {
        index_set_contents(*self)
    }
}

impl IndexSet {
    /// `hashbrown::HashSet::new`: the empty set.
    #[verifier::external_body]
    pub fn new() -> (s: Self)
        ensures
            index_set_contents(s) == Set::<usize>::empty(),
    {
        IndexSet { inner: hashbrown::HashSet::new() }
    }

    /// `hashbrown::HashSet::insert`: adds `v`; the result tells whether `v` was absent.
    #[verifier::external_body]
    pub fn insert(&mut self, v: usize) -> (fresh: bool)
        ensures
            final(self)@ == old(self)@.insert(v),
            fresh == !old(self)@.contains(v),
    {
        self.inner.insert(v)
    }

    /// `hashbrown::HashSet::remove`: removes `v`; the result tells whether it was present.
    #[verifier::external_body]
    pub fn remove(&mut self, v: usize) -> (was: bool)
        ensures
            final(self)@ == old(self)@.remove(v),
            was == old(self)@.contains(v),
    {
        self.inner.remove(&v)
    }

    /// `hashbrown::HashSet::contains`.
    #[verifier::external_body]
    pub fn contains(&self, v: usize) -> (b: bool)
        ensures
            b == self@.contains(v),
    {
        self.inner.contains(&v)
    }

    /// `hashbrown::HashSet::len`: the number of elements.
    #[verifier::external_body]
    pub fn len(&self) -> (n: usize)
        ensures
            n == self@.len(),
    {
        self.inner.len()
    }

    /// `hashbrown::HashSet::iter`, collected: every element once, in the
    /// order in which the set is walked (which the contract leaves open).
    #[verifier::external_body]
    pub fn to_vec(&self) -> (v: Vec<usize>)
        ensures
            v@.no_duplicates(),
            v@.to_set() == self@,
    {
        self.inner.iter().copied().collect()
    }
}

impl Clone for IndexSet {
    /// `hashbrown::HashSet::clone`: a set with the same elements.
    #[verifier::external_body]
    fn clone(&self) -> (r: Self)
        ensures
            r@ == self@,
    {
        IndexSet { inner: self.inner.clone() }
    }
}

/// A map from indices to indices, stored in a `hashbrown::HashMap<usize, usize>`.
#[verifier::external_body]
pub struct IndexMap {
    inner: hashbrown::HashMap<usize, usize>,
}

/// The entries that an `IndexMap` holds.
pub uninterp spec fn index_map_contents(m: IndexMap) -> Map<usize, usize>;

impl View for IndexMap {
    type V = Map<usize, usize>;

    open spec fn view(&self) -> Map<usize, usize> {
        index_map_contents(*self)
    }
}

impl IndexMap {
    /// `hashbrown::HashMap::new`: the empty map.
    #[verifier::external_body]
    pub fn new() -> (r: Self)
        ensures
            index_map_contents(r) == no_index_entries(),
    {
        IndexMap { inner: hashbrown::HashMap::new() }
    }

    /// `hashbrown::HashMap::insert`: sets the entry of `k` to `v`, returning the previous value.
    #[verifier::external_body]
    pub fn insert(&mut self, k: usize, v: usize) -> (prev: Option<usize>)
        ensures
            final(self)@ == old(self)@.insert(k, v),
            prev == (if old(self)@.contains_key(k) { Some(old(self)@[k]) } else { None::<usize> }),
    {
        self.inner.insert(k, v)
    }

    /// `hashbrown::HashMap::get`, copied out.
    #[verifier::external_body]
    pub fn get(&self, k: usize) -> (r: Option<usize>)
        ensures
            r == (if self@.contains_key(k) { Some(self@[k]) } else { None::<usize> }),
    {
        self.inner.get(&k).copied()
    }

    /// `hashbrown::HashMap::iter`, collected: every entry once, in the order
    /// in which the map is walked (which the contract leaves open).
    #[verifier::external_body]
    pub fn to_vec(&self) -> (v: Vec<(usize, usize)>)
        ensures
            v@.map_values(|e: (usize, usize)| e.0).no_duplicates(),
            forall|i: int| 0 <= i < v@.len() ==> self@.contains_key(#[trigger] v@[i].0) && self@[v@[i].0] == v@[i].1,
            forall|k: usize| self@.contains_key(k) ==> exists|i: int| 0 <= i < v@.len() && #[trigger] v@[i].0 == k,
    {
        self.inner.iter().map(|(k, v)| (*k, *v)).collect()
    }
}

impl Clone for IndexMap {
    /// `hashbrown::HashMap::clone`: a map with the same entries.
    #[verifier::external_body]
    fn clone(&self) -> (r: Self)
        ensures
            r@ == self@,
    {
        IndexMap { inner: self.inner.clone() }
    }
}

/// A map from indices to sets of indices, stored in a
/// `hashbrown::HashMap<usize, hashbrown::HashSet<usize>>`.
#[verifier::external_body]
pub struct IndexSetMap {
    inner: hashbrown::HashMap<usize, hashbrown::HashSet<usize>>,
}

/// The entries that an `IndexSetMap` holds.
pub uninterp spec fn index_set_map_contents(m: IndexSetMap) -> Map<usize, Set<usize>>;

impl View for IndexSetMap {
    type V = Map<usize, Set<usize>>;

    open spec fn view(&self) -> Map<usize, Set<usize>> {
        index_set_map_contents(*self)
    }
}

impl IndexSetMap {
    /// `hashbrown::HashMap::new`: the empty map.
    #[verifier::external_body]
    pub fn new() -> (r: Self)
        ensures
            index_set_map_contents(r) == no_index_set_entries(),
    {
        IndexSetMap { inner: hashbrown::HashMap::new() }
    }

    /// `entry(k).or_default().insert(v)`: adds `v` to the set of `k`,
    /// creating an empty set for `k` first where there is none.
    #[verifier::external_body]
    pub fn add(&mut self, k: usize, v: usize)
        ensures
            final(self)@ == old(self)@.insert(
                k,
                (if old(self)@.contains_key(k) { old(self)@[k] } else { Set::<usize>::empty() }).insert(v),
            ),
    {
        self.inner.entry(k).or_default().insert(v);
    }

    /// `hashbrown::HashMap::insert`: sets the set of `k` to the elements of `s`.
    #[verifier::external_body]
    pub fn insert(&mut self, k: usize, s: IndexSet)
        ensures
            final(self)@ == old(self)@.insert(k, s@),
    {
        self.inner.insert(k, s.inner);
    }

    /// `hashbrown::HashMap::get`, walked: the elements of the set of `k`
    /// (none where `k` has no entry), each once, in an order left open.
    #[verifier::external_body]
    pub fn targets(&self, k: usize) -> (v: Vec<usize>)
        ensures
            v@.no_duplicates(),
            v@.to_set() == (if self@.contains_key(k) { self@[k] } else { Set::<usize>::empty() }),
    {
        match self.inner.get(&k) {
            Some(s) => s.iter().copied().collect(),
            None => Vec::new(),
        }
    }

    /// `hashbrown::HashMap::keys`, collected: every key once, in an order left open.
    #[verifier::external_body]
    pub fn keys(&self) -> (v: Vec<usize>)
        ensures
            v@.no_duplicates(),
            v@.to_set() == self@.dom(),
    {
        self.inner.keys().copied().collect()
    }
}

impl Clone for IndexSetMap {
    /// `hashbrown::HashMap::clone`: a map with the same entries.
    #[verifier::external_body]
    fn clone(&self) -> (r: Self)
        ensures
            r@ == self@,
    {
        IndexSetMap { inner: self.inner.clone() }
    }
}

/// A set of pairs of indices, stored in a `hashbrown::HashSet<(usize, usize)>`.
#[verifier::external_body]
pub struct PairSet {
    inner: hashbrown::HashSet<(usize, usize)>,
}

/// The pairs that a `PairSet` holds.
pub uninterp spec fn pair_set_contents(s: PairSet) -> Set<(usize, usize)>;

impl View for PairSet {
    type V = Set<(usize, usize)>;

    open spec fn view(&self) -> Set<(usize, usize)> {
        pair_set_contents(*self)
    }
}

impl PairSet {
    /// `hashbrown::HashSet::new`: the empty set.
    #[verifier::external_body]
    pub fn new() -> (s: Self)
        ensures
            pair_set_contents(s) == no_pairs(),
    {
        PairSet { inner: hashbrown::HashSet::new() }
    }

    /// `hashbrown::HashSet::insert`: adds `v`; the result tells whether `v` was absent.
    #[verifier::external_body]
    pub fn insert(&mut self, v: (usize, usize)) -> (fresh: bool)
        ensures
            final(self)@ == old(self)@.insert(v),
            fresh == !old(self)@.contains(v),
    {
        self.inner.insert(v)
    }

    /// `hashbrown::HashSet::contains`.
    #[verifier::external_body]
    pub fn contains(&self, v: (usize, usize)) -> (b: bool)
        ensures
            b == self@.contains(v),
    {
        self.inner.contains(&v)
    }

    /// `hashbrown::HashSet::len`: the number of pairs.
    #[verifier::external_body]
    pub fn len(&self) -> (n: usize)
        ensures
            n == self@.len(),
    {
        self.inner.len()
    }

    /// `hashbrown::HashSet::iter`, collected: every pair once, in the
    /// order in which the set is walked (which the contract leaves open).
    #[verifier::external_body]
    pub fn to_vec(&self) -> (v: Vec<(usize, usize)>)
        ensures
            v@.no_duplicates(),
            v@.to_set() == self@,
    {
        self.inner.iter().copied().collect()
    }
}

/// A map from state names to state indices, stored in a
/// `hashbrown::HashMap<State, usize>` (a state's `Hash` and `Eq` go by its name).
#[verifier::external_body]
pub struct StateIndexMap {
    inner: hashbrown::HashMap<State, usize>,
}

/// The entries of a `StateIndexMap`, keyed by the states' names.
pub uninterp spec fn state_index_map_contents(m: StateIndexMap) -> Map<Seq<char>, usize>;

impl View for StateIndexMap {
    type V = Map<Seq<char>, usize>;

    open spec fn view(&self) -> Map<Seq<char>, usize> {
        state_index_map_contents(*self)
    }
}

impl StateIndexMap {
    /// `hashbrown::HashMap::new`: the empty map.
    #[verifier::external_body]
    pub fn new() -> (r: Self)
        ensures
            state_index_map_contents(r) == no_name_entries(),
    {
        StateIndexMap { inner: hashbrown::HashMap::new() }
    }

    /// `hashbrown::HashMap::insert`: sets the entry of the state named like `k` to `v`.
    #[verifier::external_body]
    pub fn insert(&mut self, k: State, v: usize)
        ensures
            final(self)@ == old(self)@.insert(k@, v),
    {
        self.inner.insert(k, v);
    }

    /// `hashbrown::HashMap::get`, copied out.
    #[verifier::external_body]
    pub fn get(&self, k: &State) -> (r: Option<usize>)
        ensures
            r == (if self@.contains_key(k@) { Some(self@[k@]) } else { None::<usize> }),
    {
        self.inner.get(k).copied()
    }

    /// `hashbrown::HashMap::iter`, collected: every entry once, in the order
    /// in which the map is walked (which the contract leaves open).
    #[verifier::external_body]
    pub fn to_vec(&self) -> (v: Vec<(State, usize)>)
        ensures
            forall|i: int| 0 <= i < v@.len() ==> self@.contains_key(#[trigger] v@[i].0@) && self@[v@[i].0@] == v@[i].1,
            forall|k: Seq<char>| self@.contains_key(k) ==> exists|i: int| 0 <= i < v@.len() && #[trigger] v@[i].0@ == k,
    {
        self.inner.iter().map(|(k, v)| (k.clone(), *v)).collect()
    }
}

impl Clone for StateIndexMap {
    /// `hashbrown::HashMap::clone`: a map with the same entries.
    #[verifier::external_body]
    fn clone(&self) -> (r: Self)
        ensures
            r@ == self@,
    {
        StateIndexMap { inner: self.inner.clone() }
    }
}

/// A map from symbol names to symbol indices, stored in a
/// `hashbrown::HashMap<InputSymbol, usize>` (a symbol's `Hash` and `Eq` go by its name).
#[verifier::external_body]
pub struct SymbolIndexMap {
    inner: hashbrown::HashMap<InputSymbol, usize>,
}

/// The entries of a `SymbolIndexMap`, keyed by the symbols' names.
pub uninterp spec fn symbol_index_map_contents(m: SymbolIndexMap) -> Map<Seq<char>, usize>;

impl View for SymbolIndexMap {
    type V = Map<Seq<char>, usize>;

    open spec fn view(&self) -> Map<Seq<char>, usize> {
        symbol_index_map_contents(*self)
    }
}

impl SymbolIndexMap {
    /// `hashbrown::HashMap::new`: the empty map.
    #[verifier::external_body]
    pub fn new() -> (r: Self)
        ensures
            symbol_index_map_contents(r) == no_name_entries(),
    {
        SymbolIndexMap { inner: hashbrown::HashMap::new() }
    }

    /// `hashbrown::HashMap::insert`: sets the entry of the symbol named like `k` to `v`.
    #[verifier::external_body]
    pub fn insert(&mut self, k: InputSymbol, v: usize)
        ensures
            final(self)@ == old(self)@.insert(k@, v),
    {
        self.inner.insert(k, v);
    }

    /// `hashbrown::HashMap::remove`: drops the entry of the symbol named like `k`.
    #[verifier::external_body]
    pub fn remove(&mut self, k: &InputSymbol)
        ensures
            final(self)@ == old(self)@.remove(k@),
    {
        self.inner.remove(k);
    }

    /// `hashbrown::HashMap::get`, copied out.
    #[verifier::external_body]
    pub fn get(&self, k: &InputSymbol) -> (r: Option<usize>)
        ensures
            r == (if self@.contains_key(k@) { Some(self@[k@]) } else { None::<usize> }),
    {
        self.inner.get(k).copied()
    }
}

impl Clone for SymbolIndexMap {
    /// `hashbrown::HashMap::clone`: a map with the same entries.
    #[verifier::external_body]
    fn clone(&self) -> (r: Self)
        ensures
            r@ == self@,
    {
        SymbolIndexMap { inner: self.inner.clone() }
    }
}

} // verus!

verus! {

/// A set of indices, stored in a `rustc_hash::FxHashSet<usize>`.
#[verifier::external_body]
pub struct FxIndexSet {
    inner: rustc_hash::FxHashSet<usize>,
}

/// The indices that an `FxIndexSet` holds.
pub uninterp spec fn fx_index_set_contents(s: FxIndexSet) -> Set<usize>;

impl View for FxIndexSet {
    type V = Set<usize>;

    open spec fn view(&self) -> Set<usize> {
        fx_index_set_contents(*self)
    }
}

impl FxIndexSet {
    /// `FxHashSet::from_iter` of one index: the set holding just `v`.
    #[verifier::external_body]
    pub fn singleton(v: usize) -> (s: Self)
        ensures
            fx_index_set_contents(s) == set![v],
    {
        FxIndexSet { inner: rustc_hash::FxHashSet::from_iter(vec![v]) }
    }

    /// `FxHashSet::insert`: adds `v`; the result tells whether `v` was absent.
    #[verifier::external_body]
    pub fn insert(&mut self, v: usize) -> (fresh: bool)
        ensures
            final(self)@ == old(self)@.insert(v),
            fresh == !old(self)@.contains(v),
    {
        self.inner.insert(v)
    }
}

} // verus!

verus! {

/// A set of states, stored in a `hashbrown::HashSet<State>` (a state's
/// `Hash` and `Eq` go by its name).
#[verifier::external_body]
pub struct StateSet {
    inner: hashbrown::HashSet<State>,
}

/// The names of the states that a `StateSet` holds.
pub uninterp spec fn state_set_contents(s: StateSet) -> Set<Seq<char>>;

impl View for StateSet {
    type V = Set<Seq<char>>;

    open spec fn view(&self) -> Set<Seq<char>> {
        state_set_contents(*self)
    }
}

/// The set with no names.
pub open spec fn no_names() -> Set<Seq<char>> {
    Set::empty()
}

impl StateSet {
    /// `hashbrown::HashSet::new`: the empty set.
    #[verifier::external_body]
    pub fn new() -> (s: Self)
        ensures
            state_set_contents(s) == no_names(),
    {
        StateSet { inner: hashbrown::HashSet::new() }
    }

    /// `hashbrown::HashSet::insert`: adds the state named like `v`.
    #[verifier::external_body]
    pub fn insert(&mut self, v: State)
        ensures
            final(self)@ == old(self)@.insert(v@),
    {
        self.inner.insert(v);
    }

    /// `hashbrown::HashSet::contains`.
    #[verifier::external_body]
    pub fn contains(&self, v: &State) -> (b: bool)
        ensures
            b == self@.contains(v@),
    {
        self.inner.contains(v)
    }

    /// `hashbrown::HashSet::len`: the number of states.
    #[verifier::external_body]
    pub fn len(&self) -> (n: usize)
        ensures
            n == self@.len(),
    {
        self.inner.len()
    }
}

} // verus!

verus! {

/// A map from indices to pairs of indices, stored in a
/// `hashbrown::HashMap<usize, (usize, usize)>`.
#[verifier::external_body]
pub struct IndexPairMap {
    inner: hashbrown::HashMap<usize, (usize, usize)>,
}

/// The entries that an `IndexPairMap` holds.
pub uninterp spec fn index_pair_map_contents(m: IndexPairMap) -> Map<usize, (usize, usize)>;

impl View for IndexPairMap {
    type V = Map<usize, (usize, usize)>;

    open spec fn view(&self) -> Map<usize, (usize, usize)> {
        index_pair_map_contents(*self)
    }
}

/// The map with no entries, from indices to pairs.
pub open spec fn no_pair_entries() -> Map<usize, (usize, usize)> {
    Map::empty()
}

impl IndexPairMap {
    /// `hashbrown::HashMap::new`: the empty map.
    #[verifier::external_body]
    pub fn new() -> (r: Self)
        ensures
            index_pair_map_contents(r) == no_pair_entries(),
    {
        IndexPairMap { inner: hashbrown::HashMap::new() }
    }

    /// `hashbrown::HashMap::insert`: sets the entry of `k` to `v`.
    #[verifier::external_body]
    pub fn insert(&mut self, k: usize, v: (usize, usize))
        ensures
            final(self)@ == old(self)@.insert(k, v),
    {
        self.inner.insert(k, v);
    }

    /// `hashbrown::HashMap::get`, copied out.
    #[verifier::external_body]
    pub fn get(&self, k: usize) -> (r: Option<(usize, usize)>)
        ensures
            r == (if self@.contains_key(k) { Some(self@[k]) } else { None::<(usize, usize)> }),
    {
        self.inner.get(&k).copied()
    }

    /// `hashbrown::HashMap::contains_key`.
    #[verifier::external_body]
    pub fn contains_key(&self, k: usize) -> (b: bool)
        ensures
            b == self@.contains_key(k),
    {
        self.inner.contains_key(&k)
    }
}

/// A map from pairs of indices to a symbol index and a pair, stored in a
/// `hashbrown::HashMap<(usize, usize), (usize, (usize, usize))>`.
#[verifier::external_body]
pub struct PairParentMap {
    inner: hashbrown::HashMap<(usize, usize), (usize, (usize, usize))>,
}

/// The entries that a `PairParentMap` holds.
pub uninterp spec fn pair_parent_map_contents(m: PairParentMap) -> Map<(usize, usize), (usize, (usize, usize))>;

impl View for PairParentMap {
    type V = Map<(usize, usize), (usize, (usize, usize))>;

    open spec fn view(&self) -> Map<(usize, usize), (usize, (usize, usize))> {
        pair_parent_map_contents(*self)
    }
}

/// The map with no entries, from pairs to parents.
pub open spec fn no_parent_entries() -> Map<(usize, usize), (usize, (usize, usize))> {
    Map::empty()
}

impl PairParentMap {
    /// `hashbrown::HashMap::new`: the empty map.
    #[verifier::external_body]
    pub fn new() -> (r: Self)
        ensures
            pair_parent_map_contents(r) == no_parent_entries(),
    {
        PairParentMap { inner: hashbrown::HashMap::new() }
    }

    /// `hashbrown::HashMap::insert`: sets the entry of `k` to `v`.
    #[verifier::external_body]
    pub fn insert(&mut self, k: (usize, usize), v: (usize, (usize, usize)))
        ensures
            final(self)@ == old(self)@.insert(k, v),
    {
        self.inner.insert(k, v);
    }

    /// `hashbrown::HashMap::get`, copied out.
    #[verifier::external_body]
    pub fn get(&self, k: (usize, usize)) -> (r: Option<(usize, (usize, usize))>)
        ensures
            r == (if self@.contains_key(k) { Some(self@[k]) } else { None::<(usize, (usize, usize))> }),
    {
        self.inner.get(&k).copied()
    }

    /// `hashbrown::HashMap::contains_key`.
    #[verifier::external_body]
    pub fn contains_key(&self, k: (usize, usize)) -> (b: bool)
        ensures
            b == self@.contains_key(k),
    {
        self.inner.contains_key(&k)
    }
}

} // verus!


verus! {

/// A map from terminal names to terminal indices, stored in a
/// `rustc_hash::FxHashMap<InputSymbol, usize>` (a symbol's `Hash` and `Eq` go by its name).
#[verifier::external_body]
pub struct TerminalMap {
    inner: rustc_hash::FxHashMap<InputSymbol, usize>,
}

/// The entries of a `TerminalMap`, keyed by the terminals' names.
pub uninterp spec fn terminal_map_contents(m: TerminalMap) -> Map<Seq<char>, usize>;

impl View for TerminalMap {
    type V = Map<Seq<char>, usize>;

    open spec fn view(&self) -> Map<Seq<char>, usize> {
        terminal_map_contents(*self)
    }
}

impl TerminalMap {
    /// `FxHashMap::default`: the empty map.
    #[verifier::external_body]
    pub fn new() -> (r: Self)
        ensures
            terminal_map_contents(r) == no_name_entries(),
    {
        TerminalMap { inner: rustc_hash::FxHashMap::default() }
    }

    /// `FxHashMap::insert`: sets the entry of the terminal named like `k` to `v`.
    #[verifier::external_body]
    pub fn insert(&mut self, k: InputSymbol, v: usize)
        ensures
            final(self)@ == old(self)@.insert(k@, v),
    {
        self.inner.insert(k, v);
    }

    /// `FxHashMap::get`, copied out.
    #[verifier::external_body]
    pub fn get(&self, k: &InputSymbol) -> (r: Option<usize>)
        ensures
            r == (if self@.contains_key(k@) { Some(self@[k@]) } else { None::<usize> }),
    {
        self.inner.get(k).copied()
    }
}

impl Clone for TerminalMap {
    /// `FxHashMap::clone`: a map with the same entries.
    #[verifier::external_body]
    fn clone(&self) -> (r: Self)
        ensures
            r@ == self@,
    {
        TerminalMap { inner: self.inner.clone() }
    }
}

} // verus!

verus! {

/// A set of grammar symbols, stored in a `hashbrown::HashSet<SymbolIndex>`.
#[verifier::external_body]
pub struct SymbolSet {
    inner: hashbrown::HashSet<SymbolIndex>,
}

/// The symbols that a `SymbolSet` holds.
pub uninterp spec fn symbol_set_contents(s: SymbolSet) -> Set<SymbolIndex>;

impl View for SymbolSet {
    type V = Set<SymbolIndex>;

    open spec fn view(&self) -> Set<SymbolIndex> {
        symbol_set_contents(*self)
    }
}

/// The set with no symbols.
pub open spec fn no_symbols() -> Set<SymbolIndex> {
    Set::empty()
}

impl SymbolSet {
    /// `hashbrown::HashSet::new`: the empty set.
    #[verifier::external_body]
    pub fn new() -> (s: Self)
        ensures
            symbol_set_contents(s) == no_symbols(),
    {
        SymbolSet { inner: hashbrown::HashSet::new() }
    }

    /// `hashbrown::HashSet::insert`: adds `v`; the result tells whether `v` was absent.
    #[verifier::external_body]
    pub fn insert(&mut self, v: SymbolIndex) -> (fresh: bool)
        ensures
            final(self)@ == old(self)@.insert(v),
            fresh == !old(self)@.contains(v),
    {
        self.inner.insert(v)
    }

    /// `hashbrown::HashSet::contains`.
    #[verifier::external_body]
    pub fn contains(&self, v: SymbolIndex) -> (b: bool)
        ensures
            b == self@.contains(v),
    {
        self.inner.contains(&v)
    }

    /// `hashbrown::HashSet::len`: the number of symbols.
    #[verifier::external_body]
    pub fn len(&self) -> (n: usize)
        ensures
            n == self@.len(),
    {
        self.inner.len()
    }

    /// `hashbrown::HashSet::iter`, collected: every symbol once, in the
    /// order in which the set is walked (which the contract leaves open).
    #[verifier::external_body]
    pub fn to_vec(&self) -> (v: Vec<SymbolIndex>)
        ensures
            v@.no_duplicates(),
            v@.to_set() == self@,
    {
        self.inner.iter().copied().collect()
    }
}

impl Clone for SymbolSet {
    /// `hashbrown::HashSet::clone`: a set with the same symbols.
    #[verifier::external_body]
    fn clone(&self) -> (r: Self)
        ensures
            r@ == self@,
    {
        SymbolSet { inner: self.inner.clone() }
    }
}

} // verus!

verus! {

/// A map from intersection variables `(p, v, q)` to bodies, stored in a
/// `hashbrown::HashMap<(usize, usize, usize), Vec<IntersectionSymbolIndex>>`.
#[verifier::external_body]
pub struct GenerationMap {
    inner: hashbrown::HashMap<(usize, usize, usize), Vec<IntersectionSymbolIndex>>,
}

/// The entries of a `GenerationMap`.
pub uninterp spec fn generation_map_contents(m: GenerationMap) -> Map<(usize, usize, usize), Seq<IntersectionSymbolIndex>>;

impl View for GenerationMap {
    type V = Map<(usize, usize, usize), Seq<IntersectionSymbolIndex>>;

    open spec fn view(&self) -> Map<(usize, usize, usize), Seq<IntersectionSymbolIndex>> {
        generation_map_contents(*self)
    }
}

/// The map with no entries, from intersection variables to bodies.
pub open spec fn no_generations() -> Map<(usize, usize, usize), Seq<IntersectionSymbolIndex>> {
    Map::empty()
}

impl GenerationMap {
    /// `hashbrown::HashMap::new`: the empty map.
    #[verifier::external_body]
    pub fn new() -> (r: Self)
        ensures
            generation_map_contents(r) == no_generations(),
    {
        GenerationMap { inner: hashbrown::HashMap::new() }
    }

    /// `hashbrown::HashMap::insert`: sets the entry of `k` to `v`.
    #[verifier::external_body]
    pub fn insert(&mut self, k: (usize, usize, usize), v: Vec<IntersectionSymbolIndex>)
        ensures
            final(self)@ == old(self)@.insert(k, v@),
    {
        self.inner.insert(k, v);
    }

    /// `hashbrown::HashMap::get`, copied out.
    #[verifier::external_body]
    pub fn get(&self, k: (usize, usize, usize)) -> (r: Option<Vec<IntersectionSymbolIndex>>)
        ensures
            match r {
                Some(v) => self@.contains_key(k) && v@ == self@[k],
                None => !self@.contains_key(k),
            },
    {
        self.inner.get(&k).cloned()
    }

    /// `hashbrown::HashMap::contains_key`.
    #[verifier::external_body]
    pub fn contains_key(&self, k: (usize, usize, usize)) -> (b: bool)
        ensures
            b == self@.contains_key(k),
    {
        self.inner.contains_key(&k)
    }
}

/// A map from bodies to indices, kept as
/// `hashbrown::HashMap<Vec<SymbolIndex>, usize>`.
#[verifier::external_body]
pub struct SuffixMap {
    inner: hashbrown::HashMap<Vec<SymbolIndex>, usize>,
}

/// The entries of a `SuffixMap`.
pub uninterp spec fn suffix_map_contents(m: SuffixMap) -> Map<Seq<SymbolIndex>, usize>;

impl View for SuffixMap {
    type V = Map<Seq<SymbolIndex>, usize>;

    open spec fn view(&self) -> Map<Seq<SymbolIndex>, usize> {
        suffix_map_contents(*self)
    }
}

/// The map with no entries, from bodies to indices.
pub open spec fn no_suffixes() -> Map<Seq<SymbolIndex>, usize> {
    Map::empty()
}

impl SuffixMap {
    /// `hashbrown::HashMap::new`: the empty map.
    #[verifier::external_body]
    pub fn new() -> (r: Self)
        ensures
            suffix_map_contents(r) == no_suffixes(),
    {
        SuffixMap { inner: hashbrown::HashMap::new() }
    }

    /// `hashbrown::HashMap::insert`: sets the entry of `k` to `v`.
    #[verifier::external_body]
    pub fn insert(&mut self, k: Vec<SymbolIndex>, v: usize)
        ensures
            final(self)@ == old(self)@.insert(k@, v),
    {
        self.inner.insert(k, v);
    }

    /// `hashbrown::HashMap::get` with a slice as the key, copied out.
    #[verifier::external_body]
    pub fn get(&self, k: &[SymbolIndex]) -> (r: Option<usize>)
        ensures
            match r {
                Some(v) => self@.contains_key(k@) && v == self@[k@],
                None => !self@.contains_key(k@),
            },
    {
        self.inner.get(k).copied()
    }
}

/// A short list of indices, kept in a `smallvec::SmallVec<[usize; 2]>`.
#[verifier::external_body]
pub struct UsageList {
    inner: smallvec::SmallVec<[usize; 2]>,
}

/// The elements of a `UsageList`, in order.
pub uninterp spec fn usage_list_contents(l: UsageList) -> Seq<usize>;

impl View for UsageList {
    type V = Seq<usize>;

    open spec fn view(&self) -> Seq<usize> {
        usage_list_contents(*self)
    }
}

/// The empty list of indices.
pub open spec fn no_usages() -> Seq<usize> {
    Seq::empty()
}

impl UsageList {
    /// `smallvec::SmallVec::new`: the empty list.
    #[verifier::external_body]
    pub fn new() -> (r: Self)
        ensures
            usage_list_contents(r) == no_usages(),
    {
        UsageList { inner: smallvec::SmallVec::new() }
    }

    /// `smallvec::SmallVec::push`: appends `v`.
    #[verifier::external_body]
    pub fn push(&mut self, v: usize)
        ensures
            final(self)@ == old(self)@.push(v),
    {
        self.inner.push(v);
    }

    /// `smallvec::SmallVec::len`: the number of elements.
    #[verifier::external_body]
    pub fn len(&self) -> (n: usize)
        ensures
            n == self@.len(),
    {
        self.inner.len()
    }

    /// The element at position `i`, by indexing the `SmallVec`.
    #[verifier::external_body]
    pub fn get(&self, i: usize) -> (v: usize)
        requires
            i < self@.len(),
        ensures
            v == self@[i as int],
    {
        self.inner[i]
    }
}

/// A map from symbols to lists of positions, kept as
/// `hashbrown::HashMap<SymbolIndex, Vec<usize>>`.
#[verifier::external_body]
pub struct PrefixMap {
    inner: hashbrown::HashMap<SymbolIndex, Vec<usize>>,
}

/// The entries of a `PrefixMap`.
pub uninterp spec fn prefix_map_contents(m: PrefixMap) -> Map<SymbolIndex, Seq<usize>>;

impl View for PrefixMap {
    type V = Map<SymbolIndex, Seq<usize>>;

    open spec fn view(&self) -> Map<SymbolIndex, Seq<usize>> {
        prefix_map_contents(*self)
    }
}

/// The map with no entries, from symbols to lists of positions.
pub open spec fn no_prefixes() -> Map<SymbolIndex, Seq<usize>> {
    Map::empty()
}

impl PrefixMap {
    /// `hashbrown::HashMap::new`: the empty map.
    #[verifier::external_body]
    pub fn new() -> (r: Self)
        ensures
            prefix_map_contents(r) == no_prefixes(),
    {
        PrefixMap { inner: hashbrown::HashMap::new() }
    }

    /// `entry(k).or_insert_with(Vec::new).push(i)`: appends `i` to the list
    /// of `k`, starting from an empty list where `k` has none.
    #[verifier::external_body]
    pub fn push(&mut self, k: SymbolIndex, i: usize)
        ensures
            final(self)@ == old(self)@.insert(
                k,
                (if old(self)@.contains_key(k) { old(self)@[k] } else { Seq::<usize>::empty() }).push(i),
            ),
    {
        self.inner.entry(k).or_insert_with(Vec::new).push(i);
    }

    /// `hashbrown::HashMap::iter`, collected: every entry once, in the order
    /// in which the map is walked (which the contract leaves open).
    #[verifier::external_body]
    pub fn entries(&self) -> (v: Vec<(SymbolIndex, Vec<usize>)>)
        ensures
            forall|i: int, j: int| 0 <= i < j < v@.len() ==> (#[trigger] v@[i]).0 != (#[trigger] v@[j]).0,
            forall|i: int| 0 <= i < v@.len() ==> self@.contains_key((#[trigger] v@[i]).0) && v@[i].1@ == self@[v@[i].0],
            forall|k: SymbolIndex| #[trigger] self@.contains_key(k) ==> exists|i: int| 0 <= i < v@.len() && (#[trigger] v@[i]).0 == k,
    {
        self.inner.iter().map(|(k, l)| (*k, l.clone())).collect()
    }
}

/// A map from pairs of symbols to lists of variables, kept as
/// `hashbrown::HashMap<(SymbolIndex, SymbolIndex), Vec<usize>>`.
#[verifier::external_body]
pub struct TwoGramMap {
    inner: hashbrown::HashMap<(SymbolIndex, SymbolIndex), Vec<usize>>,
}

/// The entries of a `TwoGramMap`.
pub uninterp spec fn two_gram_map_contents(m: TwoGramMap) -> Map<(SymbolIndex, SymbolIndex), Seq<usize>>;

impl View for TwoGramMap {
    type V = Map<(SymbolIndex, SymbolIndex), Seq<usize>>;

    open spec fn view(&self) -> Map<(SymbolIndex, SymbolIndex), Seq<usize>> {
        two_gram_map_contents(*self)
    }
}

/// The map with no entries, from pairs of symbols to lists of variables.
pub open spec fn no_two_grams() -> Map<(SymbolIndex, SymbolIndex), Seq<usize>> {
    Map::empty()
}

impl TwoGramMap {
    /// `hashbrown::HashMap::new`: the empty map.
    #[verifier::external_body]
    pub fn new() -> (r: Self)
        ensures
            two_gram_map_contents(r) == no_two_grams(),
    {
        TwoGramMap { inner: hashbrown::HashMap::new() }
    }

    /// `entry(k).or_insert_with(Vec::new).push(v)`: appends `v` to the list
    /// of `k`, starting from an empty list where `k` has none.
    #[verifier::external_body]
    pub fn push(&mut self, k: (SymbolIndex, SymbolIndex), v: usize)
        ensures
            final(self)@ == old(self)@.insert(
                k,
                (if old(self)@.contains_key(k) { old(self)@[k] } else { Seq::<usize>::empty() }).push(v),
            ),
    {
        self.inner.entry(k).or_insert_with(Vec::new).push(v);
    }

    /// `hashbrown::HashMap::is_empty`.
    #[verifier::external_body]
    pub fn is_empty(&self) -> (b: bool)
        ensures
            b == (self@.dom() == Set::<(SymbolIndex, SymbolIndex)>::empty()),
    {
        self.inner.is_empty()
    }

    /// `hashbrown::HashMap::iter`, collected: every entry once, in the order
    /// in which the map is walked (which the contract leaves open).
    #[verifier::external_body]
    pub fn entries(&self) -> (v: Vec<((SymbolIndex, SymbolIndex), Vec<usize>)>)
        ensures
            forall|i: int, j: int| 0 <= i < j < v@.len() ==> (#[trigger] v@[i]).0 != (#[trigger] v@[j]).0,
            forall|i: int| 0 <= i < v@.len() ==> self@.contains_key((#[trigger] v@[i]).0) && v@[i].1@ == self@[v@[i].0],
            forall|k: (SymbolIndex, SymbolIndex)| #[trigger] self@.contains_key(k) ==> exists|i: int| 0 <= i < v@.len() && (#[trigger] v@[i]).0 == k,
    {
        self.inner.iter().map(|(k, l)| (*k, l.clone())).collect()
    }
}

/// A map from lists of states to indices, kept as
/// `hashbrown::HashMap<Vec<usize>, usize>`.
#[verifier::external_body]
pub struct SubsetMap {
    inner: hashbrown::HashMap<Vec<usize>, usize>,
}

/// The entries of a `SubsetMap`.
pub uninterp spec fn subset_map_contents(m: SubsetMap) -> Map<Seq<usize>, usize>;

impl View for SubsetMap {
    type V = Map<Seq<usize>, usize>;

    open spec fn view(&self) -> Map<Seq<usize>, usize> {
        subset_map_contents(*self)
    }
}

/// The map with no entries, from lists of states to indices.
pub open spec fn no_subsets() -> Map<Seq<usize>, usize> {
    Map::empty()
}

impl SubsetMap {
    /// `hashbrown::HashMap::new`: the empty map.
    #[verifier::external_body]
    pub fn new() -> (r: Self)
        ensures
            subset_map_contents(r) == no_subsets(),
    {
        SubsetMap { inner: hashbrown::HashMap::new() }
    }

    /// `hashbrown::HashMap::insert`: sets the entry of `k` to `v`.
    #[verifier::external_body]
    pub fn insert(&mut self, k: Vec<usize>, v: usize)
        ensures
            final(self)@ == old(self)@.insert(k@, v),
    {
        self.inner.insert(k, v);
    }

    /// `hashbrown::HashMap::get`, copied out.
    #[verifier::external_body]
    pub fn get(&self, k: &Vec<usize>) -> (r: Option<usize>)
        ensures
            match r {
                Some(v) => self@.contains_key(k@) && v == self@[k@],
                None => !self@.contains_key(k@),
            },
    {
        self.inner.get(k).copied()
    }
}

} // verus!

verus! {

/// A map from variable names to variable indices, stored in a
/// `hashbrown::HashMap<Variable, usize>` (a variable's `Hash` and `Eq` go by its name).
#[verifier::external_body]
pub struct VariableIndexMap {
    inner: hashbrown::HashMap<Variable, usize>,
}

/// The entries of a `VariableIndexMap`, keyed by the variables' names.
pub uninterp spec fn variable_index_map_contents(m: VariableIndexMap) -> Map<Seq<char>, usize>;

impl View for VariableIndexMap {
    type V = Map<Seq<char>, usize>;

    open spec fn view(&self) -> Map<Seq<char>, usize> {
        variable_index_map_contents(*self)
    }
}

impl VariableIndexMap {
    /// `hashbrown::HashMap::new`: the empty map.
    #[verifier::external_body]
    pub fn new() -> (r: Self)
        ensures
            variable_index_map_contents(r) == no_name_entries(),
    {
        VariableIndexMap { inner: hashbrown::HashMap::new() }
    }

    /// `hashbrown::HashMap::insert`: sets the entry of the variable named like `k` to `v`.
    #[verifier::external_body]
    pub fn insert(&mut self, k: Variable, v: usize)
        ensures
            final(self)@ == old(self)@.insert(k@, v),
    {
        self.inner.insert(k, v);
    }

    /// `hashbrown::HashMap::get`, copied out.
    #[verifier::external_body]
    pub fn get(&self, k: &Variable) -> (r: Option<usize>)
        ensures
            r == (if self@.contains_key(k@) { Some(self@[k@]) } else { None::<usize> }),
    {
        self.inner.get(k).copied()
    }
}

} // verus!

verus! {

/// A grammar as plain values: the names of its terminals, its start
/// variable and its productions.
pub open spec fn grammar_shape(g: CFG) -> (Seq<Seq<char>>, usize, Seq<Seq<Seq<SymbolIndex>>>) {
    (crate::language::word_of(g.terminals@), g.start_symbol, g.g())
}

/// The entries `es` as names and grammars as plain values.
pub open spec fn entry_shapes(es: Seq<(InputSymbol, CFG)>) -> Seq<(Seq<char>, (Seq<Seq<char>>, usize, Seq<Seq<Seq<SymbolIndex>>>))> {
    es.map_values(|e: (InputSymbol, CFG)| (e.0@, grammar_shape(e.1)))
}

/// Whether `es` lists the entries of `m`, each key once.
pub open spec fn lists(
    es: Seq<(Seq<char>, (Seq<Seq<char>>, usize, Seq<Seq<Seq<SymbolIndex>>>))>,
    m: Map<Seq<char>, (Seq<Seq<char>>, usize, Seq<Seq<Seq<SymbolIndex>>>)>,
) -> bool {
    &&& forall|i: int, j: int| 0 <= i < j < es.len() ==> #[trigger] es[i].0 != #[trigger] es[j].0
    &&& forall|i: int| 0 <= i < es.len() ==> m.contains_key(#[trigger] es[i].0) && m[es[i].0] == es[i].1
    &&& forall|k: Seq<char>| #[trigger] m.contains_key(k) ==> exists|i: int| 0 <= i < es.len() && #[trigger] es[i].0 == k
}

/// The map with no entries, from names to grammars.
pub open spec fn no_substitutions() -> Map<Seq<char>, (Seq<Seq<char>>, usize, Seq<Seq<Seq<SymbolIndex>>>)> {
    Map::empty()
}

/// A map from terminal names to the grammars that stand for them, stored in
/// a `hashbrown::HashMap<InputSymbol, CFG>` (a symbol's `Hash` and `Eq` go by its name).
#[verifier::external_body]
pub struct SubstitutionMap {
    inner: hashbrown::HashMap<InputSymbol, CFG>,
}

/// The entries of a `SubstitutionMap`: names and grammars as plain values.
pub uninterp spec fn substitution_map_contents(m: SubstitutionMap) -> Map<Seq<char>, (Seq<Seq<char>>, usize, Seq<Seq<Seq<SymbolIndex>>>)>;

impl View for SubstitutionMap {
    type V = Map<Seq<char>, (Seq<Seq<char>>, usize, Seq<Seq<Seq<SymbolIndex>>>)>;

    open spec fn view(&self) -> Map<Seq<char>, (Seq<Seq<char>>, usize, Seq<Seq<Seq<SymbolIndex>>>)> {
        substitution_map_contents(*self)
    }
}

impl SubstitutionMap {
    /// `hashbrown::HashMap::new`: the empty map.
    #[verifier::external_body]
    pub fn new() -> (r: Self)
        ensures
            substitution_map_contents(r) == no_substitutions(),
    {
        SubstitutionMap { inner: hashbrown::HashMap::new() }
    }

    /// `hashbrown::HashMap::insert`: sets the grammar of the terminal named like `k`.
    #[verifier::external_body]
    pub fn insert(&mut self, k: InputSymbol, v: CFG)
        ensures
            final(self)@ == old(self)@.insert(k@, grammar_shape(v)),
    {
        self.inner.insert(k, v);
    }

    /// `hashbrown::HashMap::iter`, each entry copied: every entry once, in
    /// the order in which the map is walked (which the contract leaves open).
    #[verifier::external_body]
    pub fn entries(&self) -> (v: Vec<(InputSymbol, CFG)>)
        ensures
            lists(entry_shapes(v@), self@),
    {
        self.inner.iter().map(|(k, g)| (k.clone(), g.clone())).collect()
    }
}

} // verus!

verus! {

/// A set of symbol names, stored in a `hashbrown::HashSet<InputSymbol>`
/// (a symbol's `Hash` and `Eq` go by its name).
#[verifier::external_body]
pub struct NameSet {
    inner: hashbrown::HashSet<InputSymbol>,
}

/// The names that a `NameSet` holds.
pub uninterp spec fn name_set_contents(s: NameSet) -> Set<Seq<char>>;

impl View for NameSet {
    type V = Set<Seq<char>>;

    open spec fn view(&self) -> Set<Seq<char>> {
        name_set_contents(*self)
    }
}

impl NameSet {
    /// `hashbrown::HashSet::new`: the empty set.
    #[verifier::external_body]
    pub fn new() -> (s: Self)
        ensures
            name_set_contents(s) == no_names(),
    {
        NameSet { inner: hashbrown::HashSet::new() }
    }

    /// `hashbrown::HashSet::insert`: adds the name of `v`.
    #[verifier::external_body]
    pub fn insert(&mut self, v: InputSymbol)
        ensures
            final(self)@ == old(self)@.insert(v@),
    {
        self.inner.insert(v);
    }

    /// `hashbrown::HashSet::contains`.
    #[verifier::external_body]
    pub fn contains(&self, v: &InputSymbol) -> (b: bool)
        ensures
            b == self@.contains(v@),
    {
        self.inner.contains(v)
    }

    /// `hashbrown::HashSet::iter`, each symbol copied: every name once, in
    /// the order in which the set is walked (which the contract leaves open).
    #[verifier::external_body]
    pub fn to_vec(&self) -> (v: Vec<InputSymbol>)
        ensures
            crate::language::word_of(v@).no_duplicates(),
            crate::language::word_of(v@).to_set() == self@,
    {
        self.inner.iter().cloned().collect()
    }
}

} // verus!
