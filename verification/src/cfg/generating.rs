//! Generating and nullable symbols of a grammar, found by propagating
//! through the list of places where each symbol is used.
use crate::cfg::cfg::{
    body_derives, derivable, derive_step, derives, generates, grammar_ok, is_generating, split_ok, symbol_in, Derivations,
    SymbolIndex,
};
use crate::collections::{IndexSet, SymbolSet};
use crate::util::{below, lemma_below_finite};
use vstd::prelude::*;

verus! {

/// The bodies in `bs` that are not empty, in order.
pub open spec fn nonempty_bodies(bs: Seq<Seq<SymbolIndex>>) -> Seq<Seq<SymbolIndex>>
    decreases bs.len(),
{
    if bs.len() == 0 {
        Seq::empty()
    } else if bs.last().len() > 0 {
        nonempty_bodies(bs.drop_last()).push(bs.last())
    } else {
        nonempty_bodies(bs.drop_last())
    }
}

/// The number of places in `b` that hold `s`.
pub open spec fn occurrences(b: Seq<SymbolIndex>, s: SymbolIndex) -> nat
    decreases b.len(),
{
    if b.len() == 0 {
        0
    } else {
        occurrences(b.drop_last(), s) + if b.last() == s { 1nat } else { 0nat }
    }
}

/// The number of places in `b` that hold a symbol outside `done`.
pub open spec fn pending(b: Seq<SymbolIndex>, done: Set<SymbolIndex>) -> nat
    decreases b.len(),
{
    if b.len() == 0 {
        0
    } else {
        pending(b.drop_last(), done) + if done.contains(b.last()) { 0nat } else { 1nat }
    }
}

/// The number of times `x` occurs in `l`.
pub open spec fn pair_count(l: Seq<(usize, usize)>, x: (usize, usize)) -> nat
    decreases l.len(),
{
    if l.len() == 0 {
        0
    } else {
        pair_count(l.drop_last(), x) + if l.last() == x { 1nat } else { 0nat }
    }
}

/// The number of places that hold `s` in the `i`-th non-empty body of variable `h`.
pub open spec fn impact_count(g: Seq<Seq<Seq<SymbolIndex>>>, s: SymbolIndex, h: int, i: int) -> nat {
    if 0 <= h < g.len() && 0 <= i < nonempty_bodies(g[h]).len() {
        occurrences(nonempty_bodies(g[h])[i], s)
    } else {
        0
    }
}

/// Whether `set` holds every symbol of `b`.
pub open spec fn all_in(set: Set<SymbolIndex>, b: Seq<SymbolIndex>) -> bool {
    forall|k: int| 0 <= k < b.len() ==> set.contains(#[trigger] b[k])
}

/// Whether `set` holds the head of every production whose body symbols it all holds.
pub open spec fn closed_under(g: Seq<Seq<Seq<SymbolIndex>>>, set: Set<SymbolIndex>) -> bool {
    forall|h: int, j: int|
        0 <= h < g.len() && 0 <= j < g[h].len() && #[trigger] all_in(set, g[h][j])
            ==> set.contains(SymbolIndex::VariableIndex(h as usize))
}

/// Removing the symbol `s` from the pending ones lowers the count by its occurrences.
pub proof fn lemma_pending_insert(b: Seq<SymbolIndex>, done: Set<SymbolIndex>, s: SymbolIndex)
    requires
        !done.contains(s),
    ensures
        pending(b, done.insert(s)) + occurrences(b, s) == pending(b, done),
    decreases b.len(),
{
    if b.len() > 0 {
        lemma_pending_insert(b.drop_last(), done, s);
    }
}

/// No place is pending exactly when every symbol is done.
pub proof fn lemma_pending_zero(b: Seq<SymbolIndex>, done: Set<SymbolIndex>)
    ensures
        pending(b, done) == 0 <==> forall|k: int| 0 <= k < b.len() ==> done.contains(#[trigger] b[k]),
    decreases b.len(),
{
    if b.len() > 0 {
        lemma_pending_zero(b.drop_last(), done);
        if pending(b, done) == 0 {
            assert forall|k: int| 0 <= k < b.len() implies done.contains(#[trigger] b[k]) by {
                if k < b.len() - 1 {
                    assert(b.drop_last()[k] == b[k]);
                }
            }
        }
        if forall|k: int| 0 <= k < b.len() ==> done.contains(#[trigger] b[k]) {
            assert forall|k: int| 0 <= k < b.drop_last().len() implies done.contains(#[trigger] b.drop_last()[k]) by {
                assert(b.drop_last()[k] == b[k]);
            }
            assert(done.contains(b[b.len() - 1]));
        }
    }
}

/// An element of a list is counted in it.
pub proof fn lemma_pair_count_member(l: Seq<(usize, usize)>, t: int)
    requires
        0 <= t < l.len(),
    ensures
        pair_count(l, l[t]) > 0,
    decreases l.len(),
{
    if t < l.len() - 1 {
        lemma_pair_count_member(l.drop_last(), t);
        assert(l.drop_last()[t] == l[t]);
    }
}

/// Counting over a longer prefix counts at least as many.
pub proof fn lemma_pair_count_prefix(l: Seq<(usize, usize)>, t: int, x: (usize, usize))
    requires
        0 <= t <= l.len(),
    ensures
        pair_count(l.take(t), x) <= pair_count(l, x),
    decreases l.len() - t,
{
    if t < l.len() {
        lemma_pair_count_prefix(l, t + 1, x);
        assert(l.take(t + 1).drop_last() =~= l.take(t));
    } else {
        assert(l.take(t) =~= l);
    }
}

/// The non-empty bodies of a list are bodies of the list.
pub proof fn lemma_nonempty_body_is_body(bs: Seq<Seq<SymbolIndex>>, i: int)
    requires
        0 <= i < nonempty_bodies(bs).len(),
    ensures
        nonempty_bodies(bs)[i].len() > 0,
        exists|j: int| 0 <= j < bs.len() && #[trigger] bs[j] == nonempty_bodies(bs)[i],
    decreases bs.len(),
{
    let r = nonempty_bodies(bs.drop_last());
    if i < r.len() {
        lemma_nonempty_body_is_body(bs.drop_last(), i);
        let j = choose|j: int| 0 <= j < bs.drop_last().len() && #[trigger] bs.drop_last()[j] == r[i];
        assert(bs[j] == bs.drop_last()[j]);
    } else {
        assert(bs[bs.len() - 1] == nonempty_bodies(bs)[i]);
    }
}

/// Every non-empty body of a list is one of its non-empty bodies.
pub proof fn lemma_body_is_nonempty_body(bs: Seq<Seq<SymbolIndex>>, j: int)
    requires
        0 <= j < bs.len(),
        bs[j].len() > 0,
    ensures
        exists|i: int| 0 <= i < nonempty_bodies(bs).len() && #[trigger] nonempty_bodies(bs)[i] == bs[j],
    decreases bs.len(),
{
    if j < bs.len() - 1 {
        lemma_body_is_nonempty_body(bs.drop_last(), j);
        let i = choose|i: int| 0 <= i < nonempty_bodies(bs.drop_last()).len() && #[trigger] nonempty_bodies(bs.drop_last())[i] == bs.drop_last()[j];
        assert(nonempty_bodies(bs)[i] == bs[j]);
    } else {
        let r = nonempty_bodies(bs.drop_last());
        assert(nonempty_bodies(bs)[r.len() as int] == bs[j]);
    }
}

/// The non-empty bodies of a prefix are a prefix of the non-empty bodies.
pub proof fn lemma_nonempty_prefix(bs: Seq<Seq<SymbolIndex>>, j: int)
    requires
        0 <= j <= bs.len(),
    ensures
        nonempty_bodies(bs.take(j)).len() <= nonempty_bodies(bs).len(),
        nonempty_bodies(bs.take(j)) == nonempty_bodies(bs).take(nonempty_bodies(bs.take(j)).len() as int),
    decreases bs.len() - j,
{
    if j == bs.len() {
        assert(bs.take(j) =~= bs);
        assert(nonempty_bodies(bs).take(nonempty_bodies(bs).len() as int) =~= nonempty_bodies(bs));
    } else {
        lemma_nonempty_prefix(bs, j + 1);
        assert(bs.take(j + 1).drop_last() =~= bs.take(j));
        let a = nonempty_bodies(bs.take(j));
        let b = nonempty_bodies(bs.take(j + 1));
        let all = nonempty_bodies(bs);
        if bs[j].len() > 0 {
            assert(b == a.push(bs[j]));
            assert(a =~= b.take(a.len() as int));
            assert(all.take(a.len() as int) =~= all.take(b.len() as int).take(a.len() as int));
        } else {
            assert(b == a);
        }
    }
}

/// The derivations one level up are one step from those below.
pub proof fn lemma_derivable_unfold(g: Seq<Seq<Seq<SymbolIndex>>>, n: nat)
    ensures
        derivable(g, n + 1) == derive_step(g, derivable(g, n)),
{
    assert((n + 1 - 1) as nat == n);
}

/// One step keeps the inclusion of derivation relations.
pub proof fn lemma_step_mono(g: Seq<Seq<Seq<SymbolIndex>>>, p1: Derivations, p2: Derivations, s: SymbolIndex, w: Seq<usize>)
    requires
        forall|s2: SymbolIndex, w2: Seq<usize>| #[trigger] p1(s2, w2) ==> p2(s2, w2),
        derive_step(g, p1)(s, w),
    ensures
        derive_step(g, p2)(s, w),
{
    if let SymbolIndex::VariableIndex(v) = s {
        let j = choose|j: int| 0 <= j < g[v as int].len() && #[trigger] body_derives(p1, g[v as int][j], w);
        let body = g[v as int][j];
        let cuts = choose|cuts: Seq<int>| #[trigger] split_ok(p1, body, w, cuts);
        assert forall|k: int| 0 <= k < body.len() implies #[trigger] p2(body[k], w.subrange(cuts[k], cuts[k + 1])) by {
            assert(p1(body[k], w.subrange(cuts[k], cuts[k + 1])));
        }
        assert(split_ok(p2, body, w, cuts));
        assert(body_derives(p2, g[v as int][j], w));
    }
}

/// A derivation of bounded height is one of the next height too.
pub proof fn lemma_derivable_grows(g: Seq<Seq<Seq<SymbolIndex>>>, n: nat, s: SymbolIndex, w: Seq<usize>)
    requires
        derives(g, n, s, w),
    ensures
        derives(g, n + 1, s, w),
    decreases n,
{
    if n > 0 {
        let m = (n - 1) as nat;
        lemma_derivable_unfold(g, m);
        lemma_derivable_unfold(g, n);
        assert forall|s2: SymbolIndex, w2: Seq<usize>| #[trigger] derivable(g, m)(s2, w2) implies derivable(g, n)(s2, w2) by {
            lemma_derivable_grows(g, m, s2, w2);
        }
        lemma_step_mono(g, derivable(g, m), derivable(g, n), s, w);
    }
}

/// A higher bound on the height keeps a derivation.
pub proof fn lemma_derives_mono(g: Seq<Seq<Seq<SymbolIndex>>>, n: nat, m: nat, s: SymbolIndex, w: Seq<usize>)
    requires
        n <= m,
        derives(g, n, s, w),
    ensures
        derives(g, m, s, w),
    decreases m - n,
{
    if n < m {
        lemma_derivable_grows(g, n, s, w);
        lemma_derives_mono(g, n + 1, m, s, w);
    }
}

/// Flattening a list of words around its `k`-th word.
pub proof fn lemma_flatten_split(ws: Seq<Seq<usize>>, k: int)
    requires
        0 <= k < ws.len(),
    ensures
        ws.take(k + 1).flatten() == ws.take(k).flatten() + ws[k],
        ws.flatten() == ws.take(k + 1).flatten() + ws.skip(k + 1).flatten(),
        ws.flatten().subrange(ws.take(k).flatten().len() as int, ws.take(k + 1).flatten().len() as int) == ws[k],
{
    assert(ws.take(k + 1) =~= ws.take(k).push(ws[k]));
    ws.take(k).lemma_flatten_push(ws[k]);
    assert(ws =~= ws.take(k + 1) + ws.skip(k + 1));
    vstd::seq_lib::lemma_flatten_concat(ws.take(k + 1), ws.skip(k + 1));
    let a = ws.take(k).flatten();
    let b = ws.take(k + 1).flatten();
    assert(ws.flatten().subrange(a.len() as int, b.len() as int) =~= ws[k]);
}

/// Where every symbol of a body derives its word according to `prev`, the
/// body derives their concatenation.
pub proof fn lemma_body_from_parts(prev: Derivations, body: Seq<SymbolIndex>, ws: Seq<Seq<usize>>)
    requires
        ws.len() == body.len(),
        forall|k: int| 0 <= k < body.len() ==> #[trigger] prev(body[k], ws[k]),
    ensures
        body_derives(prev, body, ws.flatten()),
{
    let cuts = Seq::new(body.len() + 1, |k: int| ws.take(k).flatten().len() as int);
    let w = ws.flatten();
    assert forall|k: int| 0 <= k < body.len() implies #[trigger] cuts[k] <= cuts[k + 1] && w.subrange(cuts[k], cuts[k + 1]) == ws[k] by {
        lemma_flatten_split(ws, k);
    }
    assert forall|k: int| 0 <= k < body.len() implies #[trigger] prev(body[k], w.subrange(cuts[k], cuts[k + 1])) by {
        assert(cuts[k] <= cuts[k + 1]);
    }
    assert(ws.take(0) =~= Seq::<Seq<usize>>::empty());
    assert(ws.take(body.len() as int) =~= ws);
    assert(split_ok(prev, body, w, cuts));
}

/// Every symbol of a body that derives a word derives, according to `prev`,
/// a part of the word (an empty one where the word is empty).
pub proof fn lemma_body_parts(prev: Derivations, body: Seq<SymbolIndex>, w: Seq<usize>, k: int)
    requires
        body_derives(prev, body, w),
        0 <= k < body.len(),
    ensures
        exists|part: Seq<usize>| #[trigger] prev(body[k], part) && (w.len() == 0 ==> part.len() == 0),
{
    let cuts = choose|cuts: Seq<int>| #[trigger] split_ok(prev, body, w, cuts);
    let part = w.subrange(cuts[k], cuts[k + 1]);
    assert(prev(body[k], part));
    if w.len() == 0 {
        lemma_cuts_bounded(cuts, body.len() as int, w.len() as int, k);
        lemma_cuts_bounded(cuts, body.len() as int, w.len() as int, k + 1);
        assert(part.len() == 0);
    }
}

/// Monotone cut points from 0 to `total` stay between them.
pub proof fn lemma_cuts_bounded(cuts: Seq<int>, len: int, total: int, k: int)
    requires
        cuts.len() == len + 1,
        cuts[0] == 0,
        cuts[len] == total,
        forall|i: int| 0 <= i < len ==> #[trigger] cuts[i] <= cuts[i + 1],
        0 <= k <= len,
    ensures
        0 <= cuts[k] <= total,
    decreases len - k,
{
    lemma_cuts_from_start(cuts, len, k);
    if k < len {
        lemma_cuts_bounded(cuts, len, total, k + 1);
        assert(cuts[k] <= cuts[k + 1]);
    }
}

/// Monotone cut points from 0 are at least 0.
proof fn lemma_cuts_from_start(cuts: Seq<int>, len: int, k: int)
    requires
        cuts.len() == len + 1,
        cuts[0] == 0,
        forall|i: int| 0 <= i < len ==> #[trigger] cuts[i] <= cuts[i + 1],
        0 <= k <= len,
    ensures
        0 <= cuts[k],
    decreases k,
{
    if k > 0 {
        lemma_cuts_from_start(cuts, len, k - 1);
    }
}

/// A set closed under the productions, holding every terminal where words may
/// be non-empty, holds every symbol that derives a word (an empty one, where
/// `empty_only`).
pub proof fn lemma_closed_holds_derivable(
    g: Seq<Seq<Seq<SymbolIndex>>>,
    nt: nat,
    set: Set<SymbolIndex>,
    empty_only: bool,
    n: nat,
    s: SymbolIndex,
    w: Seq<usize>,
)
    requires
        grammar_ok(g, nt),
        closed_under(g, set),
        !empty_only ==> forall|t: usize| t < nt ==> #[trigger] set.contains(SymbolIndex::TerminalIndex(t)),
        symbol_in(g, nt, s),
        derives(g, n, s, w),
        empty_only ==> w.len() == 0,
    ensures
        set.contains(s),
    decreases n,
{
    if n > 0 {
        let m = (n - 1) as nat;
        lemma_derivable_unfold(g, m);
        match s {
            SymbolIndex::TerminalIndex(t) => {
                if empty_only {
                    assert(w.len() == 1);
                }
            },
            SymbolIndex::VariableIndex(v) => {
                let prev = derivable(g, m);
                let j = choose|j: int| 0 <= j < g[v as int].len() && #[trigger] body_derives(prev, g[v as int][j], w);
                let body = g[v as int][j];
                assert(v < g.len());
                assert forall|k: int| 0 <= k < body.len() implies set.contains(#[trigger] body[k]) by {
                    lemma_body_parts(prev, body, w, k);
                    let part = choose|part: Seq<usize>| #[trigger] prev(body[k], part) && (w.len() == 0 ==> part.len() == 0);
                    assert(symbol_in(g, nt, g[v as int][j][k]));
                    assert(derives(g, m, body[k], part));
                    lemma_closed_holds_derivable(g, nt, set, empty_only, m, body[k], part);
                }
                assert(all_in(set, g[v as int][j]));
            },
        }
    }
}

/// A set of symbols in range is finite, with at most one element per terminal and variable.
pub proof fn lemma_symbol_set_bounded(g: Seq<Seq<Seq<SymbolIndex>>>, nt: nat, s: Set<SymbolIndex>)
    requires
        forall|x: SymbolIndex| #[trigger] s.contains(x) ==> symbol_in(g, nt, x),
    ensures
        s.finite(),
        s.len() <= nt + g.len(),
{
    let ft = |t: usize| SymbolIndex::TerminalIndex(t);
    let fv = |v: usize| SymbolIndex::VariableIndex(v);
    lemma_below_finite(nt);
    lemma_below_finite(g.len());
    let ts = below(nt).map(ft);
    let vs = below(g.len()).map(fv);
    vstd::set_lib::lemma_map_size_bound(below(nt), ts, ft);
    vstd::set_lib::lemma_map_size_bound(below(g.len()), vs, fv);
    let all = ts.union(vs);
    vstd::set_lib::lemma_len_union(ts, vs);
    assert forall|x: SymbolIndex| s.contains(x) implies all.contains(x) by {
        match x {
            SymbolIndex::TerminalIndex(t) => {
                assert(below(nt).contains(t));
                assert(ft(t) == x);
            },
            SymbolIndex::VariableIndex(v) => {
                assert(below(g.len()).contains(v));
                assert(fv(v) == x);
            },
        }
    }
    assert(s.subset_of(all));
    vstd::set_lib::lemma_len_subset(s, all);
}

} // verus!

verus! {

/// For every symbol, the places where it is used (a variable and the number
/// of one of its non-empty bodies, once per occurrence), for every variable
/// the lengths of its non-empty bodies, and the variables with an empty body.
pub struct ImpactsAndRemainingList {
    pub impacts_terminals: Vec<Vec<(usize, usize)>>,
    pub impacts_non_terminals: Vec<Vec<(usize, usize)>>,
    pub remaining_list: Vec<Vec<usize>>,
    pub added_impacts: IndexSet,
}

impl ImpactsAndRemainingList {
    /// The places where symbol `s` is used.
    pub open spec fn impacts_of(&self, s: SymbolIndex) -> Seq<(usize, usize)> {
        match s {
            SymbolIndex::TerminalIndex(t) => self.impacts_terminals@[t as int]@,
            SymbolIndex::VariableIndex(v) => self.impacts_non_terminals@[v as int]@,
        }
    }

    /// Whether the lists describe the grammar `g` with `nt` terminals.
    pub open spec fn describes(&self, g: Seq<Seq<Seq<SymbolIndex>>>, nt: nat) -> bool {
        &&& self.impacts_terminals@.len() == nt
        &&& self.impacts_non_terminals@.len() == g.len()
        &&& self.remaining_list@.len() == g.len()
        &&& forall|h: int| 0 <= h < g.len() ==> #[trigger] self.remaining_list@[h]@.len() == nonempty_bodies(g[h]).len()
        &&& forall|h: int, i: int|
            0 <= h < g.len() && 0 <= i < nonempty_bodies(g[h]).len() ==> #[trigger] self.remaining_list@[h]@[i]
                == nonempty_bodies(g[h])[i].len()
        &&& forall|s: SymbolIndex, h: usize, i: usize|
            symbol_in(g, nt, s) ==> #[trigger] pair_count(self.impacts_of(s), (h, i)) == impact_count(g, s, h as int, i as int)
        &&& forall|h: usize| #[trigger]
            self.added_impacts@.contains(h) <==> h < g.len() && exists|j: int| 0 <= j < g[h as int].len() && #[trigger] g[h as int][j].len() == 0
    }
}

/// Whether symbol `s` derives the empty word.
pub open spec fn is_nullable(g: Seq<Seq<Seq<SymbolIndex>>>, s: SymbolIndex) -> bool {
    generates(g, s, Seq::empty())
}

/// The symbols in range that derive some word (`with_terminals`) or the empty word (otherwise).
pub open spec fn closure_target(g: Seq<Seq<Seq<SymbolIndex>>>, nt: nat, with_terminals: bool, s: SymbolIndex) -> bool {
    symbol_in(g, nt, s) && if with_terminals {
        is_generating(g, s)
    } else {
        is_nullable(g, s)
    }
}

/// A copy of a list of lists of numbers.
pub fn clone_lists(v: &Vec<Vec<usize>>) -> (r: Vec<Vec<usize>>)
    ensures
        r@.len() == v@.len(),
        forall|i: int| 0 <= i < v@.len() ==> #[trigger] r@[i]@ == v@[i]@,
{
    let mut r: Vec<Vec<usize>> = Vec::new();
    let mut i: usize = 0;
    while i < v.len()
        invariant
            i <= v@.len(),
            r@.len() == i,
            forall|k: int| 0 <= k < i ==> #[trigger] r@[k]@ == v@[k]@,
        decreases v@.len() - i,
    {
        let inner = &v[i];
        let mut c: Vec<usize> = Vec::new();
        let mut j: usize = 0;
        while j < inner.len()
            invariant
                j <= inner@.len(),
                c@ == inner@.take(j as int),
            decreases inner@.len() - j,
        {
            c.push(inner[j]);
            assert(inner@.take(j + 1) =~= inner@.take(j as int).push(inner@[j as int]));
            j = j + 1;
        }
        assert(inner@.take(j as int) =~= inner@);
        r.push(c);
        i = i + 1;
    }
    r
}

} // verus!

verus! {

/// What holds throughout the propagation: every symbol found is a target;
/// the symbols still to be processed are found, once each; the processed
/// ones (`done`) are the others; the seeds are found; and for every variable
/// not yet found, each non-empty body counts its places not yet processed,
/// at least one.
pub open spec fn closure_inv(
    g: Seq<Seq<Seq<SymbolIndex>>>,
    nt: nat,
    with_terminals: bool,
    lists: &ImpactsAndRemainingList,
    set: Set<SymbolIndex>,
    stack: Seq<SymbolIndex>,
    done: Set<SymbolIndex>,
    remaining: Seq<Vec<usize>>,
) -> bool {
    &&& forall|s: SymbolIndex| #[trigger] set.contains(s) ==> closure_target(g, nt, with_terminals, s)
    &&& stack.no_duplicates()
    &&& forall|i: int| 0 <= i < stack.len() ==> set.contains(#[trigger] stack[i])
    &&& forall|s: SymbolIndex| #[trigger] done.contains(s) <==> set.contains(s) && !stack.contains(s)
    &&& forall|h: usize| #[trigger] lists.added_impacts@.contains(h) ==> set.contains(SymbolIndex::VariableIndex(h))
    &&& with_terminals ==> forall|t: usize| t < nt ==> #[trigger] set.contains(SymbolIndex::TerminalIndex(t))
    &&& remaining.len() == g.len()
    &&& forall|h: int| 0 <= h < g.len() ==> #[trigger] remaining[h].len() == nonempty_bodies(g[h]).len()
    &&& forall|h: usize, i: usize|
        h < g.len() && i < nonempty_bodies(g[h as int]).len() && !set.contains(SymbolIndex::VariableIndex(h)) ==> {
            &&& #[trigger] remaining[h as int]@[i as int] == pending(nonempty_bodies(g[h as int])[i as int], done)
            &&& remaining[h as int]@[i as int] > 0
        }
}

/// A variable with an empty body derives the empty word.
pub proof fn lemma_empty_body_nullable(g: Seq<Seq<Seq<SymbolIndex>>>, h: int, j: int)
    requires
        0 <= h < g.len(),
        0 <= j < g[h].len(),
        g[h][j].len() == 0,
        h <= usize::MAX,
    ensures
        is_nullable(g, SymbolIndex::VariableIndex(h as usize)),
{
    let prev = derivable(g, 0);
    let cuts = seq![0int];
    assert(split_ok(prev, g[h][j], Seq::<usize>::empty(), cuts));
    assert(body_derives(prev, g[h][j], Seq::<usize>::empty()));
    lemma_derivable_unfold(g, 0);
    assert(derives(g, 1, SymbolIndex::VariableIndex(h as usize), Seq::<usize>::empty()));
}

/// A terminal derives itself.
pub proof fn lemma_terminal_generating(g: Seq<Seq<Seq<SymbolIndex>>>, t: usize)
    ensures
        derives(g, 1, SymbolIndex::TerminalIndex(t), seq![t]),
        is_generating(g, SymbolIndex::TerminalIndex(t)),
{
    lemma_derivable_unfold(g, 0);
    assert(derive_step(g, derivable(g, 0))(SymbolIndex::TerminalIndex(t), seq![t]));
    assert(derives(g, 1, SymbolIndex::TerminalIndex(t), seq![t]));
    assert(generates(g, SymbolIndex::TerminalIndex(t), seq![t]));
}

/// A height at which `s` derives `w`, where there is one.
pub open spec fn height_of(g: Seq<Seq<Seq<SymbolIndex>>>, s: SymbolIndex, w: Seq<usize>) -> nat {
    choose|n: nat| #[trigger] derives(g, n, s, w)
}

/// The greatest of the heights of the first `k` symbols of `body` for their words.
pub open spec fn max_height(g: Seq<Seq<Seq<SymbolIndex>>>, body: Seq<SymbolIndex>, ws: Seq<Seq<usize>>, k: nat) -> nat
    decreases k,
{
    if k == 0 {
        0
    } else {
        let a = max_height(g, body, ws, (k - 1) as nat);
        let b = height_of(g, body[k - 1], ws[k - 1]);
        if a < b {
            b
        } else {
            a
        }
    }
}

/// Each of the first `k` heights is at most their greatest.
pub proof fn lemma_max_height(g: Seq<Seq<Seq<SymbolIndex>>>, body: Seq<SymbolIndex>, ws: Seq<Seq<usize>>, k: nat, i: int)
    requires
        0 <= i < k,
    ensures
        height_of(g, body[i], ws[i]) <= max_height(g, body, ws, k),
    decreases k,
{
    if i < k - 1 {
        lemma_max_height(g, body, ws, (k - 1) as nat, i);
    }
}

/// A variable with a body whose symbols all derive words derives their
/// concatenation; where they all derive the empty word, so does the variable.
pub proof fn lemma_head_from_body(g: Seq<Seq<Seq<SymbolIndex>>>, with_terminals: bool, h: int, j: int)
    requires
        0 <= h < g.len(),
        0 <= j < g[h].len(),
        h <= usize::MAX,
        forall|k: int| 0 <= k < g[h][j].len() ==> if with_terminals {
            is_generating(g, #[trigger] g[h][j][k])
        } else {
            is_nullable(g, g[h][j][k])
        },
    ensures
        if with_terminals {
            is_generating(g, SymbolIndex::VariableIndex(h as usize))
        } else {
            is_nullable(g, SymbolIndex::VariableIndex(h as usize))
        },
{
    let body = g[h][j];
    let ws = Seq::new(body.len(), |k: int| if with_terminals {
        choose|w: Seq<usize>| #[trigger] generates(g, body[k], w)
    } else {
        Seq::<usize>::empty()
    });
    assert forall|k: int| 0 <= k < body.len() implies #[trigger] generates(g, body[k], ws[k]) by {
        assert(g[h][j][k] == body[k]);
    }
    let n = max_height(g, body, ws, body.len());
    let prev = derivable(g, n);
    assert forall|k: int| 0 <= k < body.len() implies #[trigger] prev(body[k], ws[k]) by {
        lemma_max_height(g, body, ws, body.len(), k);
        assert(generates(g, body[k], ws[k]));
        let m = height_of(g, body[k], ws[k]);
        assert(derives(g, m, body[k], ws[k]));
        lemma_derives_mono(g, m, n, body[k], ws[k]);
    }
    lemma_body_from_parts(prev, body, ws);
    lemma_derivable_unfold(g, n);
    assert(body_derives(prev, g[h][j], ws.flatten()));
    assert(derives(g, n + 1, SymbolIndex::VariableIndex(h as usize), ws.flatten()));
    if !with_terminals {
        lemma_flatten_empty(ws);
        assert(generates(g, SymbolIndex::VariableIndex(h as usize), Seq::<usize>::empty()));
    } else {
        assert(generates(g, SymbolIndex::VariableIndex(h as usize), ws.flatten()));
    }
}

/// Flattening empty words gives the empty word.
pub proof fn lemma_flatten_empty(ws: Seq<Seq<usize>>)
    requires
        forall|k: int| 0 <= k < ws.len() ==> (#[trigger] ws[k]).len() == 0,
    ensures
        ws.flatten() =~= Seq::<usize>::empty(),
    decreases ws.len(),
{
    if ws.len() > 0 {
        assert forall|k: int| 0 <= k < ws.drop_first().len() implies (#[trigger] ws.drop_first()[k]).len() == 0 by {
            assert(ws.drop_first()[k] == ws[k + 1]);
        }
        lemma_flatten_empty(ws.drop_first());
        assert(ws[0].len() == 0);
    }
}

} // verus!

verus! {

/// The symbols that derive some word (`with_terminals`) or the empty word
/// (otherwise), found by propagating from the variables with an empty body
/// (and, with `with_terminals`, from every terminal) through the places where
/// each symbol is used, counting down for each body its symbols still to be found.
pub fn generating_closure(
    lists: &ImpactsAndRemainingList,
    nt: usize,
    with_terminals: bool,
    Ghost(g): Ghost<Seq<Seq<Seq<SymbolIndex>>>>,
) -> (r: SymbolSet)
    requires
        lists.describes(g, nt as nat),
        grammar_ok(g, nt as nat),
    ensures
        forall|s: SymbolIndex| #[trigger] r@.contains(s) <==> closure_target(g, nt as nat, with_terminals, s),
{
    let mut set = SymbolSet::new();
    let mut to_process: Vec<SymbolIndex> = Vec::new();
    let added = lists.added_impacts.to_vec();
    let mut a: usize = 0;
    while a < added.len()
        invariant
            lists.describes(g, nt as nat),
            a <= added@.len(),
            added@.to_set() == lists.added_impacts@,
            forall|s: SymbolIndex| #[trigger] set@.contains(s) ==> closure_target(g, nt as nat, with_terminals, s)
                && s is VariableIndex,
            forall|k: int| 0 <= k < a ==> set@.contains(SymbolIndex::VariableIndex(#[trigger] added@[k])),
            to_process@.no_duplicates(),
            forall|s: SymbolIndex| #[trigger] set@.contains(s) <==> to_process@.contains(s),
        decreases added@.len() - a,
    {
        let h = added[a];
        proof {
            assert(added@.to_set().contains(h));
            let j = choose|j: int| 0 <= j < g[h as int].len() && #[trigger] g[h as int][j].len() == 0;
            lemma_empty_body_nullable(g, h as int, j);
            if with_terminals {
                assert(generates(g, SymbolIndex::VariableIndex(h), Seq::<usize>::empty()));
            }
        }
        let s = SymbolIndex::VariableIndex(h);
        let ghost stack0 = to_process@;
        if set.insert(s) {
            to_process.push(s);
            proof {
                assert forall|x: SymbolIndex| #[trigger] set@.contains(x) <==> to_process@.contains(x) by {
                    if x != s && to_process@.contains(x) {
                        let i = choose|i: int| 0 <= i < to_process@.len() && to_process@[i] == x;
                        assert(stack0[i] == x);
                    }
                    if stack0.contains(x) {
                        let i = choose|i: int| 0 <= i < stack0.len() && stack0[i] == x;
                        assert(to_process@[i] == x);
                    }
                    if x == s {
                        assert(to_process@[stack0.len() as int] == s);
                    }
                }
            }
        }
        a = a + 1;
    }
    if with_terminals {
        let mut t: usize = 0;
        while t < nt
            invariant
                with_terminals,
                t <= nt,
                forall|s: SymbolIndex| #[trigger] set@.contains(s) ==> closure_target(g, nt as nat, with_terminals, s),
                forall|k: int| 0 <= k < added@.len() ==> set@.contains(SymbolIndex::VariableIndex(#[trigger] added@[k])),
                forall|u: usize| u < t ==> #[trigger] set@.contains(SymbolIndex::TerminalIndex(u)),
                forall|s: SymbolIndex| #[trigger] set@.contains(s) ==> s is VariableIndex || s->TerminalIndex_0 < t,
                to_process@.no_duplicates(),
                forall|s: SymbolIndex| #[trigger] set@.contains(s) <==> to_process@.contains(s),
            decreases nt - t,
        {
            let s = SymbolIndex::TerminalIndex(t);
            proof {
                lemma_terminal_generating(g, t);
            }
            let ghost stack0 = to_process@;
            set.insert(s);
            to_process.push(s);
            proof {
                assert(!stack0.contains(s));
                assert forall|x: SymbolIndex| #[trigger] set@.contains(x) <==> to_process@.contains(x) by {
                    if x != s && to_process@.contains(x) {
                        let i = choose|i: int| 0 <= i < to_process@.len() && to_process@[i] == x;
                        assert(stack0[i] == x);
                    }
                    if stack0.contains(x) {
                        let i = choose|i: int| 0 <= i < stack0.len() && stack0[i] == x;
                        assert(to_process@[i] == x);
                    }
                    if x == s {
                        assert(to_process@[stack0.len() as int] == s);
                    }
                }
            }
            t = t + 1;
        }
    }
    let mut remaining = clone_lists(&lists.remaining_list);
    assert(remaining.len() == g.len());
    let ghost mut done: Set<SymbolIndex> = Set::empty();
    proof {
        assert forall|h: usize| #[trigger] lists.added_impacts@.contains(h) implies set@.contains(SymbolIndex::VariableIndex(h)) by {
            assert(added@.to_set().contains(h));
            let k = choose|k: int| 0 <= k < added@.len() && added@[k] == h;
            assert(set@.contains(SymbolIndex::VariableIndex(added@[k])));
        }
        assert forall|h: usize, i: usize|
            h < g.len() && i < nonempty_bodies(g[h as int]).len() && !set@.contains(SymbolIndex::VariableIndex(h)) implies {
                &&& #[trigger] remaining@[h as int]@[i as int] == pending(nonempty_bodies(g[h as int])[i as int], done)
                &&& remaining@[h as int]@[i as int] > 0
            } by {
            lemma_pending_all(nonempty_bodies(g[h as int])[i as int], done);
            lemma_nonempty_body_is_body(g[h as int], i as int);
        }
        lemma_symbol_set_bounded(g, nt as nat, set@);
    }
    while to_process.len() > 0
        invariant
            lists.describes(g, nt as nat),
            grammar_ok(g, nt as nat),
            closure_inv(g, nt as nat, with_terminals, lists, set@, to_process@, done, remaining@),
            set@.finite(),
            done.subset_of(set@),
        decreases 2 * (nt + g.len()) - set@.len() - done.len(),
    {
        proof {
            lemma_symbol_set_bounded(g, nt as nat, set@);
            vstd::set_lib::lemma_len_subset(done, set@);
        }
        let ghost stack0 = to_process@;
        let s = to_process.pop().unwrap();
        let ghost set0 = set@;
        proof {
            assert(stack0 == to_process@.push(s));
            assert(!to_process@.contains(s)) by {
                if to_process@.contains(s) {
                    let i = choose|i: int| 0 <= i < to_process@.len() && to_process@[i] == s;
                    assert(stack0[i] == s);
                    assert(stack0[stack0.len() - 1] == s);
                }
            }
            assert(stack0[stack0.len() - 1] == s);
            assert(set@.contains(s));
            assert(!done.contains(s));
        }
        let impacts: &Vec<(usize, usize)> = match s {
            SymbolIndex::TerminalIndex(i) => &lists.impacts_terminals[i],
            SymbolIndex::VariableIndex(i) => &lists.impacts_non_terminals[i],
        };
        assert(impacts@ == lists.impacts_of(s));
        let mut t: usize = 0;
        while t < impacts.len()
            invariant
                lists.describes(g, nt as nat),
                grammar_ok(g, nt as nat),
                impacts@ == lists.impacts_of(s),
                set0.subset_of(set@),
                set@.contains(s),
                closure_target(g, nt as nat, with_terminals, s),
                !done.contains(s),
                !to_process@.contains(s),
                t <= impacts@.len(),
                forall|x: SymbolIndex| #[trigger] set@.contains(x) ==> closure_target(g, nt as nat, with_terminals, x),
                to_process@.no_duplicates(),
                forall|i: int| 0 <= i < to_process@.len() ==> set@.contains(#[trigger] to_process@[i]),
                forall|x: SymbolIndex| #[trigger] done.contains(x) <==> set@.contains(x) && !to_process@.contains(x) && x != s,
                forall|h: usize| #[trigger] lists.added_impacts@.contains(h) ==> set@.contains(SymbolIndex::VariableIndex(h)),
                with_terminals ==> forall|u: usize| u < nt ==> #[trigger] set@.contains(SymbolIndex::TerminalIndex(u)),
                remaining.len() == g.len(),
                forall|h: int| 0 <= h < g.len() ==> #[trigger] remaining@[h].len() == nonempty_bodies(g[h]).len(),
                forall|h: usize, i: usize|
                    h < g.len() && i < nonempty_bodies(g[h as int]).len() && !set@.contains(SymbolIndex::VariableIndex(h)) ==> {
                        &&& #[trigger] remaining@[h as int]@[i as int] + pair_count(impacts@.take(t as int), (h, i))
                            == pending(nonempty_bodies(g[h as int])[i as int], done)
                        &&& remaining@[h as int]@[i as int] > 0
                    },
            decreases impacts@.len() - t,
        {
            let (h, idx) = impacts[t];
            proof {
                lemma_pair_count_member(impacts@, t as int);
                assert(pair_count(lists.impacts_of(s), (h, idx)) == impact_count(g, s, h as int, idx as int));
                assert(h < g.len());
                assert(remaining@[h as int].len() == nonempty_bodies(g[h as int]).len());
                assert(impacts@.take(t + 1).drop_last() =~= impacts@.take(t as int));
                assert(impacts@.take(t + 1).last() == (h, idx));
            }
            let head = SymbolIndex::VariableIndex(h);
            if !set.contains(head) {
                let v = remaining[h][idx];
                let ghost rem0 = remaining@;
                remaining[h][idx] = v - 1;
                proof {
                    assert(remaining@[h as int]@ == rem0[h as int]@.update(idx as int, (v - 1) as usize));
                    assert forall|h2: int| 0 <= h2 < g.len() && h2 != h implies #[trigger] remaining@[h2] == rem0[h2] by {}
                }
                if v - 1 == 0 {
                    proof {
                        let b = nonempty_bodies(g[h as int])[idx as int];
                        lemma_pair_count_prefix(impacts@, t + 1, (h, idx));
                        lemma_pending_insert(b, done, s);
                        lemma_pending_zero(b, done.insert(s));
                        lemma_nonempty_body_is_body(g[h as int], idx as int);
                        let j = choose|j: int| 0 <= j < g[h as int].len() && #[trigger] g[h as int][j] == b;
                        assert forall|k: int| 0 <= k < g[h as int][j].len() implies if with_terminals {
                            is_generating(g, #[trigger] g[h as int][j][k])
                        } else {
                            is_nullable(g, g[h as int][j][k])
                        } by {
                            assert(done.insert(s).contains(b[k]));
                            assert(set@.contains(b[k]));
                        }
                        lemma_head_from_body(g, with_terminals, h as int, j);
                    }
                    let ghost stack1 = to_process@;
                    set.insert(head);
                    to_process.push(head);
                    proof {
                        assert(!stack1.contains(head));
                        assert forall|x: SymbolIndex| #[trigger] done.contains(x) <==> set@.contains(x) && !to_process@.contains(x) && x != s by {
                            if stack1.contains(x) {
                                let i = choose|i: int| 0 <= i < stack1.len() && stack1[i] == x;
                                assert(to_process@[i] == x);
                            }
                            if to_process@.contains(x) && x != head {
                                let i = choose|i: int| 0 <= i < to_process@.len() && to_process@[i] == x;
                                assert(stack1[i] == x);
                            }
                            assert(to_process@[stack1.len() as int] == head);
                        }
                        assert forall|i: int| 0 <= i < to_process@.len() implies set@.contains(#[trigger] to_process@[i]) by {
                            if i < stack1.len() {
                                assert(to_process@[i] == stack1[i]);
                            }
                        }
                    }
                }
            }
            t = t + 1;
        }
        proof {
            assert(impacts@.take(impacts@.len() as int) =~= impacts@);
            let done0 = done;
            done = done.insert(s);
            assert forall|h: usize, i: usize|
                h < g.len() && i < nonempty_bodies(g[h as int]).len() && !set@.contains(SymbolIndex::VariableIndex(h)) implies {
                    &&& #[trigger] remaining@[h as int]@[i as int] == pending(nonempty_bodies(g[h as int])[i as int], done)
                    &&& remaining@[h as int]@[i as int] > 0
                } by {
                let b = nonempty_bodies(g[h as int])[i as int];
                lemma_pending_insert(b, done0, s);
                assert(pair_count(lists.impacts_of(s), (h, i)) == impact_count(g, s, h as int, i as int));
            }
            assert(done.subset_of(set@));
            lemma_symbol_set_bounded(g, nt as nat, set@);
            vstd::set_lib::lemma_len_subset(set0, set@);
            vstd::set_lib::lemma_set_subset_finite(set0, done0);
            assert(done.len() == done0.len() + 1);
            vstd::set_lib::lemma_len_subset(done, set@);
        }
    }
    proof {
        assert(done == set@) by {
            assert(done =~= set@);
        }
        assert(closed_under(g, set@)) by {
            assert forall|h: int, j: int|
                0 <= h < g.len() && 0 <= j < g[h].len() && #[trigger] all_in(set@, g[h][j])
                    implies set@.contains(SymbolIndex::VariableIndex(h as usize)) by {
                assert(remaining@[h].len() == nonempty_bodies(g[h]).len());
                if g[h][j].len() == 0 {
                    assert(g[(h as usize) as int][j].len() == 0);
                    assert(lists.added_impacts@.contains(h as usize));
                } else {
                    lemma_body_is_nonempty_body(g[h], j);
                    let i = choose|i: int| 0 <= i < nonempty_bodies(g[h]).len() && #[trigger] nonempty_bodies(g[h])[i] == g[h][j];
                    lemma_pending_zero(g[h][j], set@);
                    if !set@.contains(SymbolIndex::VariableIndex(h as usize)) {
                        assert(remaining@[h]@[(i as usize) as int] == pending(nonempty_bodies(g[(h as usize) as int])[(i as usize) as int], done));
                    }
                }
            }
        }
        assert forall|s: SymbolIndex| closure_target(g, nt as nat, with_terminals, s) implies #[trigger] set@.contains(s) by {
            if with_terminals {
                let w = choose|w: Seq<usize>| #[trigger] generates(g, s, w);
                let n = choose|n: nat| #[trigger] derives(g, n, s, w);
                lemma_closed_holds_derivable(g, nt as nat, set@, false, n, s, w);
            } else {
                let n = choose|n: nat| #[trigger] derives(g, n, s, Seq::<usize>::empty());
                lemma_closed_holds_derivable(g, nt as nat, set@, true, n, s, Seq::<usize>::empty());
            }
        }
    }
    set
}

/// With nothing done, every place of a body is pending.
pub proof fn lemma_pending_all(b: Seq<SymbolIndex>, done: Set<SymbolIndex>)
    requires
        done == Set::<SymbolIndex>::empty(),
    ensures
        pending(b, done) == b.len(),
    decreases b.len(),
{
    if b.len() > 0 {
        lemma_pending_all(b.drop_last(), done);
    }
}

} // verus!

verus! {

/// The places counted for symbol `s` after the lists have been built for the
/// variables below `hh`, for the bodies of `hh` below `jj`, and for the first
/// `kk` symbols of body `jj` of `hh`.
pub open spec fn built_count(
    g: Seq<Seq<Seq<SymbolIndex>>>,
    s: SymbolIndex,
    hh: int,
    jj: int,
    kk: int,
    h: int,
    i: int,
) -> nat {
    if h < hh {
        impact_count(g, s, h, i)
    } else if h == hh && hh < g.len() {
        let p = nonempty_bodies(g[hh].take(jj)).len() as int;
        if 0 <= i < p {
            occurrences(nonempty_bodies(g[hh])[i], s)
        } else if i == p && jj < g[hh].len() {
            occurrences(g[hh][jj].take(kk), s)
        } else {
            0
        }
    } else {
        0
    }
}

/// The places recorded for symbol `s` in the two lists.
pub open spec fn recorded(
    imp_t: Seq<Vec<(usize, usize)>>,
    imp_v: Seq<Vec<(usize, usize)>>,
    s: SymbolIndex,
) -> Seq<(usize, usize)> {
    match s {
        SymbolIndex::TerminalIndex(t) => imp_t[t as int]@,
        SymbolIndex::VariableIndex(v) => imp_v[v as int]@,
    }
}

/// Counting the occurrences in a longer prefix adds the next symbol's.
pub proof fn lemma_occurrences_step(b: Seq<SymbolIndex>, k: int, s: SymbolIndex)
    requires
        0 <= k < b.len(),
    ensures
        occurrences(b.take(k + 1), s) == occurrences(b.take(k), s) + if b[k] == s { 1nat } else { 0nat },
{
    assert(b.take(k + 1).drop_last() =~= b.take(k));
}

/// Counting over a pushed list adds the pushed element.
pub proof fn lemma_pair_count_push(l: Seq<(usize, usize)>, y: (usize, usize), x: (usize, usize))
    ensures
        pair_count(l.push(y), x) == pair_count(l, x) + if y == x { 1nat } else { 0nat },
{
    assert(l.push(y).drop_last() =~= l);
}

impl crate::cfg::cfg::CFG {
    /// For every symbol the places where it is used, for every variable the
    /// lengths of its non-empty bodies, and the variables with an empty body.
    pub fn _get_impacts_and_remaining_list(&self) -> (r: ImpactsAndRemainingList)
        requires
            self.wf(),
        ensures
            r.describes(self.g(), self.nt()),
    {
        let ghost g = self.g();
        let nt = self.terminals.len();
        let nv = self.productions.len();
        let mut added = IndexSet::new();
        let mut remaining: Vec<Vec<usize>> = Vec::new();
        let mut imp_t: Vec<Vec<(usize, usize)>> = Vec::new();
        let mut imp_v: Vec<Vec<(usize, usize)>> = Vec::new();
        let mut x: usize = 0;
        while x < nt
            invariant
                x <= nt,
                imp_t@.len() == x,
                forall|y: int| 0 <= y < x ==> #[trigger] imp_t@[y]@.len() == 0,
            decreases nt - x,
        {
            imp_t.push(Vec::new());
            x = x + 1;
        }
        x = 0;
        while x < nv
            invariant
                x <= nv,
                imp_v@.len() == x,
                forall|y: int| 0 <= y < x ==> #[trigger] imp_v@[y]@.len() == 0,
            decreases nv - x,
        {
            imp_v.push(Vec::new());
            x = x + 1;
        }
        proof {
            assert forall|s: SymbolIndex, h: usize, i: usize| symbol_in(g, nt as nat, s) implies
                #[trigger] pair_count(recorded(imp_t@, imp_v@, s), (h, i)) == built_count(g, s, 0, 0, 0, h as int, i as int) by {
                if h == 0 && 0 < g.len() {
                    assert(g[0].take(0) =~= Seq::<Seq<SymbolIndex>>::empty());
                    if 0 < g[0].len() {
                        assert(g[0][0].take(0) =~= Seq::<SymbolIndex>::empty());
                    }
                }
            }
        }
        let mut h: usize = 0;
        while h < nv
            invariant
                self.wf(),
                g == self.g(),
                nt == self.terminals@.len(),
                nv == self.productions@.len(),
                h <= nv,
                imp_t@.len() == nt,
                imp_v@.len() == nv,
                remaining@.len() == h,
                forall|y: int| 0 <= y < h ==> #[trigger] remaining@[y]@.len() == nonempty_bodies(g[y]).len(),
                forall|y: int, i: int|
                    0 <= y < h && 0 <= i < nonempty_bodies(g[y]).len() ==> #[trigger] remaining@[y]@[i]
                        == nonempty_bodies(g[y])[i].len(),
                forall|s: SymbolIndex, y: usize, i: usize| symbol_in(g, nt as nat, s) ==>
                    #[trigger] pair_count(recorded(imp_t@, imp_v@, s), (y, i)) == built_count(g, s, h as int, 0, 0, y as int, i as int),
                forall|y: usize| #[trigger] added@.contains(y) <==> y < h && exists|j: int| 0 <= j < g[y as int].len() && #[trigger] g[y as int][j].len() == 0,
            decreases nv - h,
        {
            let productions = &self.productions[h];
            let mut rem_h: Vec<usize> = Vec::new();
            let mut j: usize = 0;
            while j < productions.len()
                invariant
                    self.wf(),
                    g == self.g(),
                    nt == self.terminals@.len(),
                    nv == self.productions@.len(),
                    h < nv,
                    productions@ == self.productions@[h as int]@,
                    j <= productions@.len(),
                    imp_t@.len() == nt,
                    imp_v@.len() == nv,
                    rem_h@.len() == nonempty_bodies(g[h as int].take(j as int)).len(),
                    forall|i: int| 0 <= i < rem_h@.len() ==> #[trigger] rem_h@[i] == nonempty_bodies(g[h as int].take(j as int))[i].len(),
                    forall|s: SymbolIndex, y: usize, i: usize| symbol_in(g, nt as nat, s) ==>
                        #[trigger] pair_count(recorded(imp_t@, imp_v@, s), (y, i)) == built_count(g, s, h as int, j as int, 0, y as int, i as int),
                    forall|y: usize| #[trigger] added@.contains(y) <==> (y < h && exists|j2: int| 0 <= j2 < g[y as int].len() && #[trigger] g[y as int][j2].len() == 0)
                        || (y == h && exists|j2: int| 0 <= j2 < j && #[trigger] g[y as int][j2].len() == 0),
                decreases productions@.len() - j,
            {
                let body = &productions[j];
                assert(body@ == g[h as int][j as int]);
                proof {
                    assert(g[h as int].take(j + 1).drop_last() =~= g[h as int].take(j as int));
                    assert(g[h as int].take(j + 1).last() == g[h as int][j as int]);
                }
                if body.len() == 0 {
                    added.insert(h);
                    proof {
                        assert forall|s: SymbolIndex, y: usize, i: usize| symbol_in(g, nt as nat, s) implies
                            #[trigger] pair_count(recorded(imp_t@, imp_v@, s), (y, i)) == built_count(g, s, h as int, j + 1, 0, y as int, i as int) by {
                            assert(built_count(g, s, h as int, j as int, 0, y as int, i as int) == built_count(g, s, h as int, j + 1, 0, y as int, i as int)) by {
                                if y == h && j + 1 < g[h as int].len() {
                                    assert(g[h as int][j + 1].take(0) =~= Seq::<SymbolIndex>::empty());
                                }
                                assert(g[h as int][j as int].take(0) =~= Seq::<SymbolIndex>::empty());
                            }
                        }
                    }
                    j = j + 1;
                    continue;
                }
                let ghost p = rem_h@.len();
                rem_h.push(body.len());
                let idx = rem_h.len() - 1;
                let mut k: usize = 0;
                proof {
                    assert(body@.take(0) =~= Seq::<SymbolIndex>::empty());
                }
                while k < body.len()
                    invariant
                        self.wf(),
                        g == self.g(),
                        nt == self.terminals@.len(),
                        nv == self.productions@.len(),
                        h < nv,
                        j < g[h as int].len(),
                        body@ == g[h as int][j as int],
                        idx == p,
                        p == nonempty_bodies(g[h as int].take(j as int)).len(),
                        k <= body@.len(),
                        imp_t@.len() == nt,
                        imp_v@.len() == nv,
                        forall|s: SymbolIndex, y: usize, i: usize| symbol_in(g, nt as nat, s) ==>
                            #[trigger] pair_count(recorded(imp_t@, imp_v@, s), (y, i)) == built_count(g, s, h as int, j as int, k as int, y as int, i as int),
                    decreases body@.len() - k,
                {
                    let sym = body[k];
                    assert(symbol_in(g, nt as nat, g[h as int][j as int][k as int]));
                    let ghost it0 = imp_t@;
                    let ghost iv0 = imp_v@;
                    match sym {
                        SymbolIndex::TerminalIndex(t) => {
                            imp_t[t].push((h, idx));
                        },
                        SymbolIndex::VariableIndex(v) => {
                            imp_v[v].push((h, idx));
                        },
                    }
                    proof {
                        assert forall|s: SymbolIndex, y: usize, i: usize| symbol_in(g, nt as nat, s) implies
                            #[trigger] pair_count(recorded(imp_t@, imp_v@, s), (y, i)) == built_count(g, s, h as int, j as int, k + 1, y as int, i as int) by {
                            lemma_occurrences_step(body@, k as int, s);
                            if s == sym {
                                assert(recorded(imp_t@, imp_v@, s) == recorded(it0, iv0, s).push((h, idx)));
                                lemma_pair_count_push(recorded(it0, iv0, s), (h, idx), (y, i));
                            } else {
                                assert(recorded(imp_t@, imp_v@, s) == recorded(it0, iv0, s));
                            }
                        }
                    }
                    k = k + 1;
                }
                proof {
                    assert(body@.take(k as int) =~= body@);
                    let ne_j = nonempty_bodies(g[h as int].take(j as int));
                    let ne_j1 = nonempty_bodies(g[h as int].take(j + 1));
                    assert(ne_j1 == ne_j.push(body@));
                    lemma_nonempty_prefix(g[h as int], j + 1);
                    assert(nonempty_bodies(g[h as int])[p as int] == ne_j1[p as int]);
                    assert forall|s: SymbolIndex, y: usize, i: usize| symbol_in(g, nt as nat, s) implies
                        #[trigger] pair_count(recorded(imp_t@, imp_v@, s), (y, i)) == built_count(g, s, h as int, j + 1, 0, y as int, i as int) by {
                        if y == h && j + 1 < g[h as int].len() {
                            assert(g[h as int][j + 1].take(0) =~= Seq::<SymbolIndex>::empty());
                        }
                    }
                    assert forall|i: int| 0 <= i < rem_h@.len() implies #[trigger] rem_h@[i] == ne_j1[i].len() by {
                        if i < p {
                            assert(ne_j1[i] == ne_j[i]);
                        }
                    }
                }
                j = j + 1;
            }
            proof {
                assert(g[h as int].take(j as int) =~= g[h as int]);
                assert forall|s: SymbolIndex, y: usize, i: usize| symbol_in(g, nt as nat, s) implies
                    #[trigger] pair_count(recorded(imp_t@, imp_v@, s), (y, i)) == built_count(g, s, h + 1, 0, 0, y as int, i as int) by {
                    if y == h + 1 && h + 1 < g.len() {
                        assert(g[h + 1].take(0) =~= Seq::<Seq<SymbolIndex>>::empty());
                        if 0 < g[h + 1].len() {
                            assert(g[h + 1][0].take(0) =~= Seq::<SymbolIndex>::empty());
                        }
                    }
                }
            }
            remaining.push(rem_h);
            h = h + 1;
        }
        let r = ImpactsAndRemainingList {
            impacts_terminals: imp_t,
            impacts_non_terminals: imp_v,
            remaining_list: remaining,
            added_impacts: added,
        };
        proof {
            assert forall|s: SymbolIndex, y: usize, i: usize| symbol_in(g, nt as nat, s) implies
                #[trigger] pair_count(r.impacts_of(s), (y, i)) == impact_count(g, s, y as int, i as int) by {
                assert(r.impacts_of(s) == recorded(r.impacts_terminals@, r.impacts_non_terminals@, s));
            }
        }
        r
    }
}

} // verus!

verus! {

impl crate::cfg::cfg::CFG {
    /// The lists of places where each symbol is used (see `_get_impacts_and_remaining_list`).
    pub fn get_impacts_and_remaining_list(&self) -> (r: ImpactsAndRemainingList)
        requires
            self.wf(),
        ensures
            r.describes(self.g(), self.nt()),
    {
        self._get_impacts_and_remaining_list()
    }

    /// The symbols that derive some word (or, with `nullable`, the empty word).
    fn _get_generating_symbols(&self, nullable: bool) -> (r: SymbolSet)
        requires
            self.wf(),
        ensures
            forall|s: SymbolIndex| #[trigger] r@.contains(s) <==> closure_target(self.g(), self.nt(), !nullable, s),
    {
        let lists = self.get_impacts_and_remaining_list();
        generating_closure(&lists, self.terminals.len(), !nullable, Ghost(self.g()))
    }

    /// The generating symbols: every terminal, and the variables that derive some word.
    pub fn get_generating_symbols(&self) -> (r: SymbolSet)
        requires
            self.wf(),
        ensures
            forall|s: SymbolIndex| #[trigger] r@.contains(s) <==> symbol_in(self.g(), self.nt(), s) && is_generating(self.g(), s),
    {
        self._get_generating_symbols(false)
    }

    /// The nullable symbols: the variables that derive the empty word.
    pub fn get_nullable_symbols(&self) -> (r: SymbolSet)
        requires
            self.wf(),
        ensures
            forall|s: SymbolIndex| #[trigger] r@.contains(s) <==> symbol_in(self.g(), self.nt(), s) && is_nullable(self.g(), s),
    {
        self._get_generating_symbols(true)
    }

    /// Whether the grammar generates the empty word.
    pub fn generates_epsilon(&self) -> (r: bool)
        requires
            self.wf(),
        ensures
            r == is_nullable(self.g(), SymbolIndex::VariableIndex(self.start_symbol)),
    {
        let nullable = self.get_nullable_symbols();
        nullable.contains(SymbolIndex::VariableIndex(self.start_symbol))
    }

    /// Whether the language of the grammar is empty: the start variable derives no word.
    pub fn is_empty(&self) -> (r: bool)
        requires
            self.wf(),
        ensures
            r == !is_generating(self.g(), SymbolIndex::VariableIndex(self.start_symbol)),
    {
        let generating = self.get_generating_symbols();
        !generating.contains(SymbolIndex::VariableIndex(self.start_symbol))
    }
}

} // verus!
