//! Removing epsilon productions and unit productions.
use crate::cfg::cfg::{clone_body, clone_terminals, grammar_of, grammar_ok, symbol_in, SymbolIndex, CFG};
use crate::cfg::normal::nullable_set;
use crate::cfg::units::{unit_pair, unit_path, unit_step};
use crate::collections::SymbolSet;
use vstd::prelude::*;
use vstd::slice::{slice_subrange, slice_to_vec};

verus! {

/// Where the first symbol of `b` that `n` holds is.
pub open spec fn first_in(b: Seq<SymbolIndex>, n: Set<SymbolIndex>) -> Option<int>
    decreases b.len(),
{
    if b.len() == 0 {
        None
    } else {
        match first_in(b.drop_last(), n) {
            Some(i) => Some(i),
            None => if n.contains(b.last()) {
                Some(b.len() - 1)
            } else {
                None
            },
        }
    }
}

/// The bodies that leaving out, or keeping, each symbol of `b` that `n`
/// holds gives: where the first such symbol is at `i`, the variants of
/// the rest after it, each with the part before it in front, first without
/// the symbol and then with it.
pub open spec fn variants(b: Seq<SymbolIndex>, n: Set<SymbolIndex>) -> Seq<Seq<SymbolIndex>>
    decreases b.len(),
{
    match first_in(b, n) {
        None => seq![b],
        Some(i) => if 0 <= i < b.len() {
            let rest = variants(b.skip(i + 1), n);
            rest.map_values(|x: Seq<SymbolIndex>| b.take(i) + x) + rest.map_values(|x: Seq<SymbolIndex>| b.take(i).push(b[i]) + x)
        } else {
            seq![b]
        },
    }
}

/// Where `first_in` finds a symbol, it is in range, held by `n`, and the
/// symbols before it are not.
pub proof fn lemma_first_in(b: Seq<SymbolIndex>, n: Set<SymbolIndex>)
    ensures
        first_in(b, n) matches Some(i) ==> 0 <= i < b.len() && n.contains(b[i]) && forall|j: int| 0 <= j < i ==> !n.contains(#[trigger] b[j]),
        first_in(b, n) is None ==> forall|j: int| 0 <= j < b.len() ==> !n.contains(#[trigger] b[j]),
    decreases b.len(),
{
    if b.len() > 0 {
        lemma_first_in(b.drop_last(), n);
        assert forall|j: int| 0 <= j < b.len() - 1 implies b.drop_last()[j] == #[trigger] b[j] by {}
    }
}

/// Every variant holds only symbols of the body.
pub proof fn lemma_variants_symbols(b: Seq<SymbolIndex>, n: Set<SymbolIndex>, v: int, k: int)
    requires
        0 <= v < variants(b, n).len(),
        0 <= k < variants(b, n)[v].len(),
    ensures
        b.contains(variants(b, n)[v][k]),
    decreases b.len(),
{
    lemma_first_in(b, n);
    match first_in(b, n) {
        None => {
            assert(b[k] == variants(b, n)[v][k]);
        },
        Some(i) => {
            let rest = variants(b.skip(i + 1), n);
            let x = if v < rest.len() { rest[v] } else { rest[v - rest.len()] };
            let pre = if v < rest.len() { b.take(i) } else { b.take(i).push(b[i]) };
            assert(variants(b, n)[v] == pre + x);
            if k < pre.len() {
                assert(b[k] == pre[k]);
            } else {
                let m = k - pre.len();
                let w = if v < rest.len() { v } else { v - rest.len() };
                lemma_variants_symbols(b.skip(i + 1), n, w, m);
                let t = choose|t: int| 0 <= t < b.skip(i + 1).len() && #[trigger] b.skip(i + 1)[t] == x[m];
                assert(b[i + 1 + t] == x[m]);
            }
        },
    }
}

/// A copy of `s[..]` as a vector.
fn copy_slice(s: &[SymbolIndex]) -> (r: Vec<SymbolIndex>)
    ensures
        r@ == s@,
{
    slice_to_vec(s)
}

/// `a` followed by `b`.
fn joined_bodies(a: &Vec<SymbolIndex>, b: &Vec<SymbolIndex>) -> (r: Vec<SymbolIndex>)
    ensures
        r@ == a@ + b@,
{
    let mut r = clone_body(a);
    let mut i: usize = 0;
    while i < b.len()
        invariant
            i <= b@.len(),
            r@ == a@ + b@.take(i as int),
        decreases b@.len() - i,
    {
        r.push(b[i]);
        proof {
            assert(b@.take(i + 1) =~= b@.take(i as int).push(b@[i as int]));
            assert(a@ + b@.take(i + 1) =~= (a@ + b@.take(i as int)).push(b@[i as int]));
        }
        i = i + 1;
    }
    proof {
        assert(b@.take(i as int) =~= b@);
    }
    r
}

impl CFG {
    /// The bodies that leaving out, or keeping, each nullable symbol of
    /// `production` gives (see `variants`).
    pub fn _production_without_nullable(production: &[SymbolIndex], nullable_symbols: &SymbolSet) -> (r: Vec<Vec<SymbolIndex>>)
        ensures
            r@.map_values(|x: Vec<SymbolIndex>| x@) == variants(production@, nullable_symbols@),
        decreases production@.len(),
    {
        let ghost b = production@;
        let ghost n = nullable_symbols@;
        proof {
            lemma_first_in(b, n);
        }
        if production.len() == 0 {
            let mut r: Vec<Vec<SymbolIndex>> = Vec::new();
            let empty: Vec<SymbolIndex> = Vec::new();
            r.push(empty);
            proof {
                assert(r@[0] == empty);
                assert(empty@ =~= b);
                assert(r@.map_values(|x: Vec<SymbolIndex>| x@) =~= seq![b]);
            }
            return r;
        }
        let mut index: usize = 0;
        while index < production.len() && !nullable_symbols.contains(production[index])
            invariant
                index <= production@.len(),
                b == production@,
                n == nullable_symbols@,
                forall|j: int| 0 <= j < index ==> !n.contains(#[trigger] b[j]),
            decreases production@.len() - index,
        {
            index = index + 1;
        }
        if index == production.len() {
            let mut r: Vec<Vec<SymbolIndex>> = Vec::new();
            let whole = copy_slice(production);
            r.push(whole);
            proof {
                assert(r@.len() == 1);
                assert(r@[0] == whole);
                assert(r@.map_values(|x: Vec<SymbolIndex>| x@)[0] == whole@);
                assert(whole@ == b);
                if first_in(b, n) is Some {
                    let i = first_in(b, n)->0;
                    assert(!n.contains(b[i]));
                }
                assert(r@.map_values(|x: Vec<SymbolIndex>| x@) =~= seq![b]);
            }
            return r;
        }
        proof {
            let i = first_in(b, n)->0;
            if first_in(b, n) is None {
                assert(!n.contains(b[index as int]));
            }
            if i < index {
                assert(!n.contains(b[i]));
            }
            if i > index {
                assert(!n.contains(b[index as int]));
            }
            assert(first_in(b, n) == Some(index as int));
        }
        let further = CFG::_production_without_nullable(slice_subrange(production, index + 1, production.len()), nullable_symbols);
        let ghost rest = variants(b.skip(index + 1), n);
        proof {
            assert(b.subrange(index + 1, b.len() as int) =~= b.skip(index + 1));
        }
        let prefix = copy_slice(slice_subrange(production, 0, index));
        proof {
            assert(prefix@ =~= b.take(index as int));
        }
        let mut all: Vec<Vec<SymbolIndex>> = Vec::new();
        let mut k: usize = 0;
        while k < further.len()
            invariant
                further@.map_values(|x: Vec<SymbolIndex>| x@) == rest,
                prefix@ == b.take(index as int),
                k <= further@.len(),
                all@.map_values(|x: Vec<SymbolIndex>| x@) == rest.take(k as int).map_values(|x: Seq<SymbolIndex>| b.take(index as int) + x),
            decreases further@.len() - k,
        {
            let ghost before = all@;
            let nb = joined_bodies(&prefix, &further[k]);
            all.push(nb);
            proof {
                assert(further@[k as int]@ == further@.map_values(|x: Vec<SymbolIndex>| x@)[k as int]);
                assert(further@[k as int]@ == rest[k as int]);
                assert(all@ == before.push(nb));
                assert(all@.map_values(|x: Vec<SymbolIndex>| x@) =~= before.map_values(|x: Vec<SymbolIndex>| x@).push(nb@));
                assert(rest.take(k + 1) =~= rest.take(k as int).push(rest[k as int]));
                assert(rest.take(k + 1).map_values(|x: Seq<SymbolIndex>| b.take(index as int) + x) =~= rest.take(k as int).map_values(
                    |x: Seq<SymbolIndex>| b.take(index as int) + x,
                ).push(b.take(index as int) + rest[k as int]));
                assert(all@.map_values(|x: Vec<SymbolIndex>| x@) =~= rest.take(k + 1).map_values(|x: Seq<SymbolIndex>| b.take(index as int) + x));
            }
            k = k + 1;
        }
        let mut prefix2 = prefix;
        prefix2.push(production[index]);
        let ghost first_half = all@;
        let mut k2: usize = 0;
        while k2 < further.len()
            invariant
                further@.map_values(|x: Vec<SymbolIndex>| x@) == rest,
                prefix2@ == b.take(index as int).push(b[index as int]),
                k2 <= further@.len(),
                first_half.map_values(|x: Vec<SymbolIndex>| x@) == rest.map_values(|x: Seq<SymbolIndex>| b.take(index as int) + x),
                all@.map_values(|x: Vec<SymbolIndex>| x@) == first_half.map_values(|x: Vec<SymbolIndex>| x@) + rest.take(k2 as int).map_values(
                    |x: Seq<SymbolIndex>| b.take(index as int).push(b[index as int]) + x,
                ),
            decreases further@.len() - k2,
        {
            let nb = joined_bodies(&prefix2, &further[k2]);
            let ghost before = all@;
            all.push(nb);
            proof {
                assert(further@[k2 as int]@ == further@.map_values(|x: Vec<SymbolIndex>| x@)[k2 as int]);
                assert(further@[k2 as int]@ == rest[k2 as int]);
                assert(all@ == before.push(nb));
                assert(all@.map_values(|x: Vec<SymbolIndex>| x@) =~= before.map_values(|x: Vec<SymbolIndex>| x@).push(nb@));
                assert(rest.take(k2 + 1) =~= rest.take(k2 as int).push(rest[k2 as int]));
                assert(rest.take(k2 + 1).map_values(|x: Seq<SymbolIndex>| b.take(index as int).push(b[index as int]) + x) =~= rest.take(k2 as int).map_values(
                    |x: Seq<SymbolIndex>| b.take(index as int).push(b[index as int]) + x,
                ).push(b.take(index as int).push(b[index as int]) + rest[k2 as int]));
                assert(all@.map_values(|x: Vec<SymbolIndex>| x@) =~= first_half.map_values(|x: Vec<SymbolIndex>| x@) + rest.take(k2 + 1).map_values(
                    |x: Seq<SymbolIndex>| b.take(index as int).push(b[index as int]) + x,
                ));
            }
            k2 = k2 + 1;
        }
        proof {
            assert(rest.take(k as int) =~= rest);
            assert(rest.take(k2 as int) =~= rest);
        }
        all
    }
}

/// The bodies of `vs` that are not empty, in order.
pub open spec fn nonempty_only(vs: Seq<Seq<SymbolIndex>>) -> Seq<Seq<SymbolIndex>>
    decreases vs.len(),
{
    if vs.len() == 0 {
        Seq::empty()
    } else if vs.last().len() > 0 {
        nonempty_only(vs.drop_last()).push(vs.last())
    } else {
        nonempty_only(vs.drop_last())
    }
}

/// The bodies of a variable once nullable symbols may be left out: for
/// each body in order, its variants that are not empty.
pub open spec fn row_without_nullable(row: Seq<Seq<SymbolIndex>>, n: Set<SymbolIndex>) -> Seq<Seq<SymbolIndex>>
    decreases row.len(),
{
    if row.len() == 0 {
        Seq::empty()
    } else {
        row_without_nullable(row.drop_last(), n) + nonempty_only(variants(row.last(), n))
    }
}

/// Every body that leaving out nullable symbols gives holds only symbols of the row.
pub proof fn lemma_row_without_nullable(row: Seq<Seq<SymbolIndex>>, n: Set<SymbolIndex>, j: int, k: int)
    requires
        0 <= j < row_without_nullable(row, n).len(),
        0 <= k < row_without_nullable(row, n)[j].len(),
    ensures
        exists|b: int, t: int| 0 <= b < row.len() && 0 <= t < row[b].len() && #[trigger] row[b][t] == row_without_nullable(row, n)[j][k],
    decreases row.len(),
{
    let prev = row_without_nullable(row.drop_last(), n);
    let x = row_without_nullable(row, n)[j][k];
    if j < prev.len() {
        lemma_row_without_nullable(row.drop_last(), n, j, k);
        let (b, t) = choose|b: int, t: int| 0 <= b < row.drop_last().len() && 0 <= t < row.drop_last()[b].len() && #[trigger] row.drop_last()[b][t] == x;
        assert(row[b][t] == x);
    } else {
        let m = j - prev.len();
        let vs = variants(row.last(), n);
        lemma_nonempty_only(vs, m);
        let v = choose|v: int| 0 <= v < vs.len() && vs[v] == nonempty_only(vs)[m];
        lemma_variants_symbols(row.last(), n, v, k);
        let t = choose|t: int| 0 <= t < row.last().len() && row.last()[t] == vs[v][k];
        let b = row.len() - 1;
        assert(row[b][t] == x);
    }
}

/// What `nonempty_only` keeps is one of the bodies.
pub proof fn lemma_nonempty_only(vs: Seq<Seq<SymbolIndex>>, m: int)
    requires
        0 <= m < nonempty_only(vs).len(),
    ensures
        exists|v: int| 0 <= v < vs.len() && vs[v] == nonempty_only(vs)[m],
    decreases vs.len(),
{
    let prev = nonempty_only(vs.drop_last());
    if m < prev.len() {
        lemma_nonempty_only(vs.drop_last(), m);
        let v = choose|v: int| 0 <= v < vs.drop_last().len() && vs.drop_last()[v] == prev[m];
        assert(vs[v] == prev[m]);
    } else {
        assert(vs[vs.len() - 1] == nonempty_only(vs)[m]);
    }
}

impl CFG {
    /// The grammar without epsilon productions: every body is replaced by
    /// the bodies that leaving out, or keeping, each of its nullable symbols
    /// gives, empty bodies dropped.
    pub fn without_epsilon(&self) -> (r: CFG)
        requires
            self.wf(),
        ensures
            r.wf(),
            r.terminals@ == self.terminals@,
            r.terminal_map@ == self.terminal_map@,
            r.start_symbol == self.start_symbol,
            r.g() == self.g().map_values(|row: Seq<Seq<SymbolIndex>>| row_without_nullable(row, nullable_set(*self))),
            r._is_cleaned is None,
            r._in_normal_form is None,
    {
        let nullable_symbols = self.get_nullable_symbols();
        proof {
            assert(nullable_symbols@ =~= nullable_set(*self));
        }
        let ghost n = nullable_symbols@;
        let mut new_productions: Vec<Vec<Vec<SymbolIndex>>> = Vec::new();
        let mut head: usize = 0;
        while head < self.productions.len()
            invariant
                self.wf(),
                n == nullable_set(*self),
                nullable_symbols@ == n,
                head <= self.productions@.len(),
                new_productions@.len() == head,
                forall|h: int| 0 <= h < head ==> #[trigger] grammar_of(new_productions@)[h] == row_without_nullable(self.g()[h], n),
            decreases self.productions@.len() - head,
        {
            let row = &self.productions[head];
            let ghost grow = self.g()[head as int];
            let mut new_row: Vec<Vec<SymbolIndex>> = Vec::new();
            let mut j: usize = 0;
            while j < row.len()
                invariant
                    nullable_symbols@ == n,
                    row@.map_values(|b: Vec<SymbolIndex>| b@) == grow,
                    j <= row@.len(),
                    new_row@.map_values(|b: Vec<SymbolIndex>| b@) == row_without_nullable(grow.take(j as int), n),
                decreases row@.len() - j,
            {
                let vs = CFG::_production_without_nullable(row[j].as_slice(), &nullable_symbols);
                let ghost vspec = variants(row@[j as int]@, n);
                let ghost base = new_row@.map_values(|b: Vec<SymbolIndex>| b@);
                let mut k: usize = 0;
                while k < vs.len()
                    invariant
                        vs@.map_values(|x: Vec<SymbolIndex>| x@) == vspec,
                        k <= vs@.len(),
                        new_row@.map_values(|b: Vec<SymbolIndex>| b@) == base + nonempty_only(vspec.take(k as int)),
                    decreases vs@.len() - k,
                {
                    let ghost before = new_row@;
                    proof {
                        assert(vs@[k as int]@ == vs@.map_values(|x: Vec<SymbolIndex>| x@)[k as int]);
                        assert(vspec.take(k + 1).drop_last() =~= vspec.take(k as int));
                        assert(vspec.take(k + 1).last() == vspec[k as int]);
                    }
                    if vs[k].len() > 0 {
                        new_row.push(clone_body(&vs[k]));
                        proof {
                            assert(new_row@.map_values(|b: Vec<SymbolIndex>| b@) =~= before.map_values(|b: Vec<SymbolIndex>| b@).push(vspec[k as int]));
                        }
                    }
                    proof {
                        assert(new_row@.map_values(|b: Vec<SymbolIndex>| b@) =~= base + nonempty_only(vspec.take(k + 1)));
                    }
                    k = k + 1;
                }
                proof {
                    assert(vspec.take(k as int) =~= vspec);
                    assert(grow.take(j + 1).drop_last() =~= grow.take(j as int));
                    assert(grow.take(j + 1).last() == grow[j as int]);
                    assert(grow[j as int] == row@[j as int]@);
                    assert(new_row@.map_values(|b: Vec<SymbolIndex>| b@) =~= row_without_nullable(grow.take(j + 1), n));
                }
                j = j + 1;
            }
            let ghost before_rows = new_productions@;
            new_productions.push(new_row);
            proof {
                assert(grow.take(j as int) =~= grow);
                assert forall|h: int| 0 <= h < head + 1 implies #[trigger] grammar_of(new_productions@)[h] == row_without_nullable(self.g()[h], n) by {
                    if h < head {
                        assert(new_productions@[h] == before_rows[h]);
                        assert(grammar_of(before_rows)[h] == row_without_nullable(self.g()[h], n));
                    }
                }
            }
            head = head + 1;
        }
        let r = CFG::new(Some(self.terminal_map.clone()), clone_terminals(&self.terminals), self.start_symbol, new_productions);
        proof {
            assert(r.g() =~= self.g().map_values(|row: Seq<Seq<SymbolIndex>>| row_without_nullable(row, n)));
            assert forall|v: int, j: int, k: int| 0 <= v < r.g().len() && 0 <= j < r.g()[v].len() && 0 <= k < r.g()[v][j].len()
                implies symbol_in(r.g(), r.nt(), #[trigger] r.g()[v][j][k]) by {
                lemma_row_without_nullable(self.g()[v], n, j, k);
                let (b, t) = choose|b: int, t: int| 0 <= b < self.g()[v].len() && 0 <= t < self.g()[v][b].len() && #[trigger] self.g()[v][b][t] == r.g()[v][j][k];
                assert(symbol_in(self.g(), self.nt(), self.g()[v][b][t]));
            }
        }
        r
    }
}

/// Whether body `b` is not a unit body (a variable alone).
pub open spec fn not_unit(b: Seq<SymbolIndex>) -> bool {
    !(b.len() == 1 && b[0] is VariableIndex)
}

/// The bodies of `row` that are not unit bodies, in order.
pub open spec fn non_unit_bodies(row: Seq<Seq<SymbolIndex>>) -> Seq<Seq<SymbolIndex>>
    decreases row.len(),
{
    if row.len() == 0 {
        Seq::empty()
    } else if not_unit(row.last()) {
        non_unit_bodies(row.drop_last()).push(row.last())
    } else {
        non_unit_bodies(row.drop_last())
    }
}

/// Whether the pair `(v, b)` stands among the first `k` pairs.
pub open spec fn listed_before(pairs: Seq<(usize, usize)>, k: int, v: usize, b: usize) -> bool {
    exists|q: int| 0 <= q < k && #[trigger] pairs[q] == (v, b)
}

/// The bodies that variable `a` gets once unit productions are removed,
/// from the first `upto` variables: for each variable `b` that a chain of
/// unit productions leads `a` to, in order, the bodies of `b` that are not
/// unit bodies.
pub open spec fn unit_free_row(g: Seq<Seq<Seq<SymbolIndex>>>, a: int, upto: int) -> Seq<Seq<SymbolIndex>>
    decreases upto,
{
    if upto <= 0 {
        Seq::empty()
    } else {
        unit_free_row(g, a, upto - 1) + (if unit_pair(g, a as usize, (upto - 1) as usize) {
            non_unit_bodies(g[upto - 1])
        } else {
            Seq::empty()
        })
    }
}

/// A chain of unit productions ends at a variable of the grammar.
pub proof fn lemma_unit_pair_in_range(g: Seq<Seq<Seq<SymbolIndex>>>, nt: nat, a: usize, b: usize)
    requires
        grammar_ok(g, nt),
        unit_pair(g, a, b),
    ensures
        b < g.len(),
{
    let path = choose|path: Seq<usize>| #[trigger] unit_path(g, path) && path[0] == a && path.last() == b;
    if path.len() > 1 {
        let i = path.len() - 2;
        assert(unit_step(g, path[i] as int, path[i + 1] as int));
        let x = path[i] as int;
        let j = choose|j: int| 0 <= j < g[x].len() && #[trigger] g[x][j] == seq![SymbolIndex::VariableIndex(b)];
        assert(symbol_in(g, nt, g[x][j][0]));
    }
}

/// Every body of a row without unit productions is a body of some variable.
pub proof fn lemma_unit_free_row(g: Seq<Seq<Seq<SymbolIndex>>>, a: int, upto: int, j: int)
    requires
        0 <= upto <= g.len(),
        0 <= j < unit_free_row(g, a, upto).len(),
    ensures
        exists|b: int, t: int| 0 <= b < g.len() && 0 <= t < g[b].len() && #[trigger] g[b][t] == unit_free_row(g, a, upto)[j],
    decreases upto,
{
    let prev = unit_free_row(g, a, upto - 1);
    if j < prev.len() {
        lemma_unit_free_row(g, a, upto - 1, j);
    } else {
        let b = upto - 1;
        let m = j - prev.len();
        lemma_non_unit_bodies(g[b], m);
        let t = choose|t: int| 0 <= t < g[b].len() && g[b][t] == non_unit_bodies(g[b])[m];
        assert(g[b][t] == unit_free_row(g, a, upto)[j]);
    }
}

/// What `non_unit_bodies` keeps is a body of the row.
pub proof fn lemma_non_unit_bodies(row: Seq<Seq<SymbolIndex>>, m: int)
    requires
        0 <= m < non_unit_bodies(row).len(),
    ensures
        exists|t: int| 0 <= t < row.len() && row[t] == non_unit_bodies(row)[m],
    decreases row.len(),
{
    let prev = non_unit_bodies(row.drop_last());
    if m < prev.len() {
        lemma_non_unit_bodies(row.drop_last(), m);
        let t = choose|t: int| 0 <= t < row.drop_last().len() && row.drop_last()[t] == prev[m];
        assert(row[t] == prev[m]);
    } else {
        assert(row[row.len() - 1] == non_unit_bodies(row)[m]);
    }
}

impl CFG {
    /// The grammar without unit productions: every variable gets, for each
    /// variable that a chain of unit productions leads it to (itself
    /// included), in order, that variable's bodies that are not unit bodies.
    pub fn without_unit_productions(&self) -> (r: CFG)
        requires
            self.wf(),
        ensures
            r.wf(),
            r.terminals@ == self.terminals@,
            r.terminal_map@ == self.terminal_map@,
            r.start_symbol == self.start_symbol,
            r.g() == Seq::new(self.g().len(), |a: int| unit_free_row(self.g(), a, self.g().len() as int)),
            r._is_cleaned is None,
            r._in_normal_form is None,
    {
        let ghost g = self.g();
        let n = self.productions.len();
        let unit_pairs = self.get_unit_pairs();
        let pairs = unit_pairs.to_vec();
        // for every variable, the variables that chains of unit productions lead to it
        let mut unit_map: Vec<Vec<usize>> = Vec::new();
        let mut i: usize = 0;
        while i < n
            invariant
                i <= n,
                unit_map@.len() == i,
                forall|b: int| 0 <= b < i ==> (#[trigger] unit_map@[b])@ == Seq::<usize>::empty(),
            decreases n - i,
        {
            unit_map.push(Vec::new());
            i = i + 1;
        }
        let mut k: usize = 0;
        while k < pairs.len()
            invariant
                self.wf(),
                g == self.g(),
                n == g.len(),
                pairs@.no_duplicates(),
                pairs@.to_set() == unit_pairs@,
                forall|p: (usize, usize)| #[trigger] unit_pairs@.contains(p) <==> unit_pair(g, p.0, p.1),
                k <= pairs@.len(),
                unit_map@.len() == n,
                forall|b: int, x: int| 0 <= b < n && 0 <= x < unit_map@[b]@.len() ==> listed_before(pairs@, k as int, #[trigger] unit_map@[b]@[x], b as usize),
                forall|b: int| 0 <= b < n ==> (#[trigger] unit_map@[b]@).no_duplicates(),
                forall|q: int| 0 <= q < k ==> (#[trigger] pairs@[q]).1 < n,
                forall|q: int| 0 <= q < k ==> (#[trigger] unit_map@[pairs@[q].1 as int]@).contains(pairs@[q].0),
            decreases pairs@.len() - k,
        {
            let (head, body) = pairs[k];
            proof {
                assert(pairs@.to_set().contains(pairs@[k as int]));
                lemma_unit_pair_in_range(g, self.nt(), head, body);
            }
            let ghost before = unit_map@;
            unit_map[body].push(head);
            proof {
                assert forall|b: int, x: int| 0 <= b < n && 0 <= x < unit_map@[b]@.len() implies listed_before(pairs@, k + 1, #[trigger] unit_map@[b]@[x], b as usize) by {
                    if b == body && x == unit_map@[b]@.len() - 1 {
                        assert(pairs@[k as int] == (unit_map@[b]@[x], b as usize));
                    } else {
                        assert(unit_map@[b]@[x] == before[b]@[x]);
                        assert(listed_before(pairs@, k as int, before[b]@[x], b as usize));
                        let q = choose|q: int| 0 <= q < k && #[trigger] pairs@[q] == (before[b]@[x], b as usize);
                        assert(pairs@[q] == (unit_map@[b]@[x], b as usize));
                    }
                }
                assert forall|b: int| 0 <= b < n implies (#[trigger] unit_map@[b]@).no_duplicates() by {
                    if b == body {
                        if before[b]@.contains(head) {
                            let x = choose|x: int| 0 <= x < before[b]@.len() && before[b]@[x] == head;
                            assert(listed_before(pairs@, k as int, before[b]@[x], b as usize));
                            let q = choose|q: int| 0 <= q < k && #[trigger] pairs@[q] == (before[b]@[x], b as usize);
                            assert(pairs@[q] == pairs@[k as int]);
                        }
                        assert(unit_map@[b]@ == before[b]@.push(head));
                    }
                }
                assert forall|q: int| 0 <= q < k + 1 implies (#[trigger] unit_map@[pairs@[q].1 as int]@).contains(pairs@[q].0) by {
                    if q < k {
                        let bb = pairs@[q].1 as int;
                        assert(bb < n);
                        assert(before[bb]@.contains(pairs@[q].0));
                        let x = choose|x: int| 0 <= x < before[bb]@.len() && before[bb]@[x] == pairs@[q].0;
                        if bb == body {
                            assert(unit_map@[bb]@ == before[bb]@.push(head));
                            assert(unit_map@[bb]@[x] == before[bb]@[x]);
                        } else {
                            assert(unit_map@[bb] == before[bb]);
                        }
                        assert(unit_map@[bb]@[x] == pairs@[q].0);
                    } else {
                        assert(pairs@[q] == (head, body));
                        assert(unit_map@[body as int]@ == before[body as int]@.push(head));
                        let last = unit_map@[body as int]@.len() - 1;
                        assert(unit_map@[body as int]@[last] == head);
                    }
                }
            }
            k = k + 1;
        }
        proof {
            assert forall|a: usize, b: int| 0 <= b < n && unit_pair(g, a, b as usize) implies #[trigger] unit_map@[b]@.contains(a) by {
                assert(unit_pairs@.contains((a, b as usize)));
                assert(pairs@.to_set().contains((a, b as usize)));
                let q = choose|q: int| 0 <= q < pairs@.len() && pairs@[q] == (a, b as usize);
            }
            assert forall|b: int, x: int| 0 <= b < n && 0 <= x < unit_map@[b]@.len() implies unit_pair(g, #[trigger] unit_map@[b]@[x], b as usize) by {
                assert(listed_before(pairs@, k as int, unit_map@[b]@[x], b as usize));
                let q = choose|q: int| 0 <= q < k && #[trigger] pairs@[q] == (unit_map@[b]@[x], b as usize);
                assert(pairs@.to_set().contains(pairs@[q]));
            }
        }
        // the new bodies
        let mut new_productions: Vec<Vec<Vec<SymbolIndex>>> = Vec::new();
        let mut i2: usize = 0;
        while i2 < n
            invariant
                i2 <= n,
                new_productions@.len() == i2,
                forall|a: int| 0 <= a < i2 ==> (#[trigger] new_productions@[a])@ == Seq::<Vec<SymbolIndex>>::empty(),
            decreases n - i2,
        {
            new_productions.push(Vec::new());
            i2 = i2 + 1;
        }
        proof {
            assert forall|a: int| 0 <= a < n implies #[trigger] grammar_of(new_productions@)[a] == unit_free_row(g, a, 0) by {
                assert(grammar_of(new_productions@)[a] =~= Seq::<Seq<SymbolIndex>>::empty());
            }
        }
        let mut head: usize = 0;
        while head < n
            invariant
                self.wf(),
                g == self.g(),
                n == g.len(),
                head <= n,
                unit_map@.len() == n,
                forall|b: int| 0 <= b < n ==> (#[trigger] unit_map@[b]@).no_duplicates(),
                forall|a: usize, b: int| 0 <= b < n && unit_pair(g, a, b as usize) ==> #[trigger] unit_map@[b]@.contains(a),
                forall|b: int, x: int| 0 <= b < n && 0 <= x < unit_map@[b]@.len() ==> unit_pair(g, #[trigger] unit_map@[b]@[x], b as usize),
                new_productions@.len() == n,
                forall|a: int| 0 <= a < n ==> #[trigger] grammar_of(new_productions@)[a] == unit_free_row(g, a, head as int),
            decreases n - head,
        {
            let row = &self.productions[head];
            let heads = &unit_map[head];
            let ghost grow = g[head as int];
            let mut j: usize = 0;
            proof {
                assert(grow.take(0) =~= Seq::<Seq<SymbolIndex>>::empty());
                assert forall|a: int| 0 <= a < n implies #[trigger] grammar_of(new_productions@)[a] == unit_free_row(g, a, head as int) + (if unit_pair(g, a as usize, head) {
                    non_unit_bodies(grow.take(0))
                } else {
                    Seq::<Seq<SymbolIndex>>::empty()
                }) by {
                    assert(unit_free_row(g, a, head as int) + Seq::<Seq<SymbolIndex>>::empty() =~= unit_free_row(g, a, head as int));
                }
            }
            while j < row.len()
                invariant
                    self.wf(),
                    g == self.g(),
                    n == g.len(),
                    head < n,
                    row@.map_values(|b: Vec<SymbolIndex>| b@) == grow,
                    grow == g[head as int],
                    heads@ == unit_map@[head as int]@,
                    heads@.no_duplicates(),
                    forall|a: usize| unit_pair(g, a, head) ==> #[trigger] heads@.contains(a),
                    forall|x: int| 0 <= x < heads@.len() ==> unit_pair(g, #[trigger] heads@[x], head),
                    j <= row@.len(),
                    new_productions@.len() == n,
                    forall|a: int| 0 <= a < n ==> #[trigger] grammar_of(new_productions@)[a] == unit_free_row(g, a, head as int) + (if unit_pair(g, a as usize, head) {
                        non_unit_bodies(grow.take(j as int))
                    } else {
                        Seq::<Seq<SymbolIndex>>::empty()
                    }),
                decreases row@.len() - j,
            {
                let b = &row[j];
                proof {
                    assert(grow[j as int] == b@);
                    assert(grow.take(j + 1).drop_last() =~= grow.take(j as int));
                    assert(grow.take(j + 1).last() == b@);
                }
                let is_unit = b.len() == 1 && match b[0] {
                    SymbolIndex::VariableIndex(_) => true,
                    SymbolIndex::TerminalIndex(_) => false,
                };
                if !is_unit {
                    let ghost base = new_productions@;
                    let mut x: usize = 0;
                    while x < heads.len()
                        invariant
                            n == g.len(),
                            head < n,
                            heads@.no_duplicates(),
                            forall|y: int| 0 <= y < heads@.len() ==> unit_pair(g, #[trigger] heads@[y], head),
                            forall|y: int| 0 <= y < heads@.len() ==> #[trigger] heads@[y] < n,
                            x <= heads@.len(),
                            new_productions@.len() == n,
                            forall|a: int| 0 <= a < n ==> #[trigger] grammar_of(new_productions@)[a] == grammar_of(base)[a] + (if exists|y: int| 0 <= y < x && heads@[y] == a {
                                seq![b@]
                            } else {
                                Seq::<Seq<SymbolIndex>>::empty()
                            }),
                        decreases heads@.len() - x,
                    {
                        let a = heads[x];
                        let ghost before = new_productions@;
                        new_productions[a].push(clone_body(b));
                        proof {
                            assert forall|c: int| 0 <= c < n implies #[trigger] grammar_of(new_productions@)[c] == grammar_of(base)[c] + (if exists|y: int| 0 <= y < x + 1 && heads@[y] == c {
                                seq![b@]
                            } else {
                                Seq::<Seq<SymbolIndex>>::empty()
                            }) by {
                                if c == a {
                                    assert(!exists|y: int| 0 <= y < x && heads@[y] == c) by {
                                        if exists|y: int| 0 <= y < x && heads@[y] == c {
                                            let y = choose|y: int| 0 <= y < x && heads@[y] == c;
                                            assert(heads@[y] == heads@[x as int]);
                                        }
                                    }
                                    assert(heads@[x as int] == c);
                                    assert(new_productions@[c]@.len() == before[c]@.len() + 1);
                                    assert(grammar_of(new_productions@)[c] =~= grammar_of(before)[c].push(b@));
                                    assert(grammar_of(before)[c] =~= grammar_of(base)[c] + Seq::<Seq<SymbolIndex>>::empty());
                                    assert(grammar_of(base)[c] + Seq::<Seq<SymbolIndex>>::empty() =~= grammar_of(base)[c]);
                                    assert(grammar_of(new_productions@)[c] =~= grammar_of(base)[c] + seq![b@]);
                                    assert(exists|y: int| 0 <= y < x + 1 && heads@[y] == c);
                                } else {
                                    assert(new_productions@[c] == before[c]);
                                    assert(grammar_of(new_productions@)[c] == grammar_of(before)[c]);
                                    if exists|y: int| 0 <= y < x + 1 && heads@[y] == c {
                                        let y = choose|y: int| 0 <= y < x + 1 && heads@[y] == c;
                                        assert(y < x);
                                    }
                                }
                            }
                        }
                        x = x + 1;
                    }
                    proof {
                        assert forall|a: int| 0 <= a < n implies #[trigger] grammar_of(new_productions@)[a] == unit_free_row(g, a, head as int) + (if unit_pair(g, a as usize, head) {
                            non_unit_bodies(grow.take(j + 1))
                        } else {
                            Seq::<Seq<SymbolIndex>>::empty()
                        }) by {
                            assert(not_unit(b@));
                            if unit_pair(g, a as usize, head) {
                                assert(heads@.contains(a as usize));
                                let y = choose|y: int| 0 <= y < heads@.len() && heads@[y] == a as usize;
                                assert(exists|y: int| 0 <= y < x && heads@[y] == a);
                            } else {
                                if exists|y: int| 0 <= y < x && heads@[y] == a {
                                    let y = choose|y: int| 0 <= y < x && heads@[y] == a;
                                    assert(unit_pair(g, heads@[y], head));
                                }
                            }
                        }
                    }
                } else {
                    proof {
                        assert(!not_unit(b@));
                        assert forall|a: int| 0 <= a < n implies #[trigger] grammar_of(new_productions@)[a] == unit_free_row(g, a, head as int) + (if unit_pair(g, a as usize, head) {
                            non_unit_bodies(grow.take(j + 1))
                        } else {
                            Seq::<Seq<SymbolIndex>>::empty()
                        }) by {}
                    }
                }
                j = j + 1;
            }
            proof {
                assert(grow.take(j as int) =~= grow);
                assert forall|a: int| 0 <= a < n implies #[trigger] grammar_of(new_productions@)[a] == unit_free_row(g, a, head + 1) by {}
            }
            head = head + 1;
        }
        let r = CFG::new(Some(self.terminal_map.clone()), clone_terminals(&self.terminals), self.start_symbol, new_productions);
        proof {
            assert(r.g() =~= Seq::new(g.len(), |a: int| unit_free_row(g, a, g.len() as int)));
            assert forall|v: int, j: int, k: int| 0 <= v < r.g().len() && 0 <= j < r.g()[v].len() && 0 <= k < r.g()[v][j].len()
                implies symbol_in(r.g(), r.nt(), #[trigger] r.g()[v][j][k]) by {
                lemma_unit_free_row(g, v, g.len() as int, j);
                let (b, t) = choose|b: int, t: int| 0 <= b < g.len() && 0 <= t < g[b].len() && #[trigger] g[b][t] == r.g()[v][j];
                assert(symbol_in(g, self.nt(), g[b][t][k]));
            }
        }
        r
    }
}

} // verus!
