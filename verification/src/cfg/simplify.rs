//! Simplifications of grammars: inlining variables that are used once.
use crate::cfg::cfg::{clone_terminals, derives, generates, grammar_of, grammar_ok, symbol_in, terminal_names, SymbolIndex, CFG};
use crate::collections::{IndexSet, PrefixMap, UsageList};
use crate::cfg::factor_words::{factoring, lemma_factoring_language};
use vstd::prelude::*;

verus! {

/// Whether every variable that a body of `g` names is a variable of `g`.
pub open spec fn variables_in_range(g: Seq<Seq<Seq<SymbolIndex>>>) -> bool {
    forall|v: int, j: int, k: int|
        0 <= v < g.len() && 0 <= j < g[v].len() && 0 <= k < g[v][j].len() && (#[trigger] g[v][j][k]) is VariableIndex
            ==> g[v][j][k]->VariableIndex_0 < g.len()
}

/// Whether variable `x` stands at position `k` of body `j` of variable `v`.
pub open spec fn occurs_at(g: Seq<Seq<Seq<SymbolIndex>>>, x: int, v: int, j: int, k: int) -> bool {
    &&& 0 <= v < g.len()
    &&& 0 <= j < g[v].len()
    &&& 0 <= k < g[v][j].len()
    &&& g[v][j][k] == SymbolIndex::VariableIndex(x as usize)
}

/// Whether position `(v, j, k)` comes before `(cv, cj, ck)`, variable by
/// variable, then body by body, then symbol by symbol.
pub open spec fn before(v: int, j: int, k: int, cv: int, cj: int, ck: int) -> bool {
    v < cv || (v == cv && (j < cj || (j == cj && k < ck)))
}

/// Whether variable `x` occurs exactly once in the bodies of `g`, in a body
/// of variable `w`.
pub open spec fn used_once_by(g: Seq<Seq<Seq<SymbolIndex>>>, x: int, w: int) -> bool {
    exists|j: int, k: int|
        #[trigger] occurs_at(g, x, w, j, k) && forall|v2: int, j2: int, k2: int|
            #[trigger] occurs_at(g, x, v2, j2, k2) ==> v2 == w && j2 == j && k2 == k
}

/// Whether variable `x` can be inlined: it is not the start variable, has one
/// body, and occurs exactly once.
pub open spec fn inlinable(g: Seq<Seq<Seq<SymbolIndex>>>, start: int, x: int) -> bool {
    &&& 0 <= x < g.len()
    &&& x != start
    &&& g[x].len() == 1
    &&& exists|w: int| #[trigger] used_once_by(g, x, w)
}

/// Body `b` with every occurrence of variable `x` replaced by `body`.
pub open spec fn spliced(b: Seq<SymbolIndex>, x: int, body: Seq<SymbolIndex>) -> Seq<SymbolIndex>
    decreases b.len(),
{
    if b.len() == 0 {
        Seq::empty()
    } else {
        spliced(b.drop_last(), x, body) + if b.last() == SymbolIndex::VariableIndex(x as usize) {
            body
        } else {
            seq![b.last()]
        }
    }
}

/// The bodies of `bs`, each spliced.
pub open spec fn spliced_all(bs: Seq<Seq<SymbolIndex>>, x: int, body: Seq<SymbolIndex>) -> Seq<Seq<SymbolIndex>> {
    bs.map_values(|b: Seq<SymbolIndex>| spliced(b, x, body))
}

/// `g` with the only body of `x` put in place of `x` in the bodies of `w`,
/// and `x` left without bodies.
pub open spec fn inlined(g: Seq<Seq<Seq<SymbolIndex>>>, x: int, w: int) -> Seq<Seq<Seq<SymbolIndex>>> {
    g.update(w, spliced_all(g[w], x, g[x][0])).update(x, Seq::empty())
}

/// What the users recorded for every variable say up to a position: none
/// for a variable that does not occur before it, the variable of its only
/// occurrence where there is one, two for one that occurs twice or more.
pub open spec fn usages_ok(g: Seq<Seq<Seq<SymbolIndex>>>, u: Seq<Seq<usize>>, cv: int, cj: int, ck: int) -> bool {
    &&& u.len() == g.len()
    &&& forall|x: int| 0 <= x < g.len() ==> #[trigger] usage_ok(g, u[x], x, cv, cj, ck)
}

/// The users recorded for variable `x` up to a position.
pub open spec fn usage_ok(g: Seq<Seq<Seq<SymbolIndex>>>, l: Seq<usize>, x: int, cv: int, cj: int, ck: int) -> bool {
    &&& l.len() <= 2
    &&& l.len() == 0 ==> forall|v: int, j: int, k: int| #[trigger] occurs_at(g, x, v, j, k) ==> !before(v, j, k, cv, cj, ck)
    &&& l.len() >= 1 ==> exists|j: int, k: int|
        #[trigger] occurs_at(g, x, l[0] as int, j, k) && before(l[0] as int, j, k, cv, cj, ck) && (l.len() == 1
            ==> forall|v2: int, j2: int, k2: int|
            #[trigger] occurs_at(g, x, v2, j2, k2) && before(v2, j2, k2, cv, cj, ck) ==> v2 == l[0] && j2 == j && k2 == k)
    &&& l.len() == 2 ==> two_occurrences(g, x, cv, cj, ck)
}

/// Whether `x` occurs at two positions before a position.
pub open spec fn two_occurrences(g: Seq<Seq<Seq<SymbolIndex>>>, x: int, cv: int, cj: int, ck: int) -> bool {
    exists|p: (int, int, int), q: (int, int, int)|
        #[trigger] occurs_at(g, x, p.0, p.1, p.2) && #[trigger] occurs_at(g, x, q.0, q.1, q.2) && before(p.0, p.1, p.2, cv, cj, ck)
            && before(q.0, q.1, q.2, cv, cj, ck) && p != q
}

/// The record of one variable holds at a later position as long as no
/// occurrence of it lies between the two positions.
pub proof fn lemma_usage_move(
    g: Seq<Seq<Seq<SymbolIndex>>>,
    l: Seq<usize>,
    x: int,
    c1: (int, int, int),
    c2: (int, int, int),
)
    requires
        usage_ok(g, l, x, c1.0, c1.1, c1.2),
        forall|v: int, j: int, k: int|
            #[trigger] occurs_at(g, x, v, j, k) ==> (before(v, j, k, c1.0, c1.1, c1.2) <==> before(v, j, k, c2.0, c2.1, c2.2)),
    ensures
        usage_ok(g, l, x, c2.0, c2.1, c2.2),
{
    if l.len() >= 1 {
        let (j, k) = choose|j: int, k: int|
            #[trigger] occurs_at(g, x, l[0] as int, j, k) && before(l[0] as int, j, k, c1.0, c1.1, c1.2) && (l.len() == 1
                ==> forall|v2: int, j2: int, k2: int|
                #[trigger] occurs_at(g, x, v2, j2, k2) && before(v2, j2, k2, c1.0, c1.1, c1.2) ==> v2 == l[0] && j2 == j && k2 == k);
        assert(occurs_at(g, x, l[0] as int, j, k));
    }
    if l.len() == 2 {
        let (p, q) = choose|p: (int, int, int), q: (int, int, int)|
            #[trigger] occurs_at(g, x, p.0, p.1, p.2) && #[trigger] occurs_at(g, x, q.0, q.1, q.2) && before(p.0, p.1, p.2, c1.0, c1.1, c1.2)
                && before(q.0, q.1, q.2, c1.0, c1.1, c1.2) && p != q;
        assert(two_occurrences(g, x, c2.0, c2.1, c2.2));
    }
}

/// At the end of the grammar, one recorded user means exactly one occurrence.
pub proof fn lemma_usage_end(g: Seq<Seq<Seq<SymbolIndex>>>, l: Seq<usize>, x: int)
    requires
        usage_ok(g, l, x, g.len() as int, 0, 0),
    ensures
        l.len() == 1 ==> used_once_by(g, x, l[0] as int),
        (exists|w: int| #[trigger] used_once_by(g, x, w)) ==> l.len() == 1,
{
    if l.len() == 1 {
        let (j, k) = choose|j: int, k: int|
            #[trigger] occurs_at(g, x, l[0] as int, j, k) && before(l[0] as int, j, k, g.len() as int, 0, 0) && (l.len() == 1
                ==> forall|v2: int, j2: int, k2: int|
                #[trigger] occurs_at(g, x, v2, j2, k2) && before(v2, j2, k2, g.len() as int, 0, 0) ==> v2 == l[0] && j2 == j && k2 == k);
        assert forall|v2: int, j2: int, k2: int| #[trigger] occurs_at(g, x, v2, j2, k2) implies v2 == l[0] && j2 == j && k2 == k by {
            assert(before(v2, j2, k2, g.len() as int, 0, 0));
        }
        assert(used_once_by(g, x, l[0] as int));
    }
    if exists|w: int| #[trigger] used_once_by(g, x, w) {
        let w = choose|w: int| #[trigger] used_once_by(g, x, w);
        let (j, k) = choose|j: int, k: int|
            #[trigger] occurs_at(g, x, w, j, k) && forall|v2: int, j2: int, k2: int|
                #[trigger] occurs_at(g, x, v2, j2, k2) ==> v2 == w && j2 == j && k2 == k;
        if l.len() == 0 {
            assert(!before(w, j, k, g.len() as int, 0, 0));
        }
        if l.len() == 2 {
            let (p, q) = choose|p: (int, int, int), q: (int, int, int)|
                #[trigger] occurs_at(g, x, p.0, p.1, p.2) && #[trigger] occurs_at(g, x, q.0, q.1, q.2) && before(p.0, p.1, p.2, g.len() as int, 0, 0)
                    && before(q.0, q.1, q.2, g.len() as int, 0, 0) && p != q;
            assert(occurs_at(g, x, p.0, p.1, p.2));
            assert(occurs_at(g, x, q.0, q.1, q.2));
        }
    }
}

/// Recording a new occurrence of `x` at `(h, j, k)` keeps the record right
/// one position further on.
pub proof fn lemma_usage_push(g: Seq<Seq<Seq<SymbolIndex>>>, l: Seq<usize>, x: int, h: int, j: int, k: int)
    requires
        usage_ok(g, l, x, h, j, k),
        l.len() < 2,
        occurs_at(g, x, h, j, k),
        0 <= h <= usize::MAX,
    ensures
        usage_ok(g, l.push(h as usize), x, h, j, k + 1),
{
    let l2 = l.push(h as usize);
    if l.len() == 0 {
        assert forall|v2: int, j2: int, k2: int| #[trigger] occurs_at(g, x, v2, j2, k2) && before(v2, j2, k2, h, j, k + 1) implies v2 == l2[0] && j2 == j && k2 == k by {
            if before(v2, j2, k2, h, j, k) {
            }
        }
        assert(occurs_at(g, x, l2[0] as int, j, k));
    } else {
        let (j0, k0) = choose|j0: int, k0: int|
            #[trigger] occurs_at(g, x, l[0] as int, j0, k0) && before(l[0] as int, j0, k0, h, j, k) && (l.len() == 1
                ==> forall|v2: int, j2: int, k2: int|
                #[trigger] occurs_at(g, x, v2, j2, k2) && before(v2, j2, k2, h, j, k) ==> v2 == l[0] && j2 == j0 && k2 == k0);
        assert(occurs_at(g, x, l2[0] as int, j0, k0));
        let p = (l[0] as int, j0, k0);
        let q = (h, j, k);
        assert(occurs_at(g, x, p.0, p.1, p.2));
        assert(occurs_at(g, x, q.0, q.1, q.2));
        assert(two_occurrences(g, x, h, j, k + 1));
    }
}

/// A record of two occurrences stays right as the position moves on.
pub proof fn lemma_usage_two(g: Seq<Seq<Seq<SymbolIndex>>>, l: Seq<usize>, x: int, c1: (int, int, int), c2: (int, int, int))
    requires
        usage_ok(g, l, x, c1.0, c1.1, c1.2),
        l.len() == 2,
        forall|v: int, j: int, k: int| before(v, j, k, c1.0, c1.1, c1.2) ==> #[trigger] before(v, j, k, c2.0, c2.1, c2.2),
    ensures
        usage_ok(g, l, x, c2.0, c2.1, c2.2),
{
    let (j0, k0) = choose|j0: int, k0: int|
        #[trigger] occurs_at(g, x, l[0] as int, j0, k0) && before(l[0] as int, j0, k0, c1.0, c1.1, c1.2) && (l.len() == 1
            ==> forall|v2: int, j2: int, k2: int|
            #[trigger] occurs_at(g, x, v2, j2, k2) && before(v2, j2, k2, c1.0, c1.1, c1.2) ==> v2 == l[0] && j2 == j0 && k2 == k0);
    assert(occurs_at(g, x, l[0] as int, j0, k0));
    let (p, q) = choose|p: (int, int, int), q: (int, int, int)|
        #[trigger] occurs_at(g, x, p.0, p.1, p.2) && #[trigger] occurs_at(g, x, q.0, q.1, q.2) && before(p.0, p.1, p.2, c1.0, c1.1, c1.2)
            && before(q.0, q.1, q.2, c1.0, c1.1, c1.2) && p != q;
    assert(before(p.0, p.1, p.2, c2.0, c2.1, c2.2));
    assert(before(q.0, q.1, q.2, c2.0, c2.1, c2.2));
    assert(two_occurrences(g, x, c2.0, c2.1, c2.2));
}

/// Every symbol of a spliced body comes from the body or from what was put in.
pub proof fn lemma_spliced_symbols(b: Seq<SymbolIndex>, x: int, body: Seq<SymbolIndex>, ok: spec_fn(SymbolIndex) -> bool)
    requires
        forall|k: int| 0 <= k < b.len() ==> ok(#[trigger] b[k]),
        forall|k: int| 0 <= k < body.len() ==> ok(#[trigger] body[k]),
    ensures
        forall|k: int| 0 <= k < spliced(b, x, body).len() ==> ok(#[trigger] spliced(b, x, body)[k]),
    decreases b.len(),
{
    if b.len() > 0 {
        lemma_spliced_symbols(b.drop_last(), x, body, ok);
        let rest = spliced(b.drop_last(), x, body);
        let tail = if b.last() == SymbolIndex::VariableIndex(x as usize) { body } else { seq![b.last()] };
        assert(spliced(b, x, body) == rest + tail);
        assert forall|k: int| 0 <= k < (rest + tail).len() implies ok(#[trigger] (rest + tail)[k]) by {
            if k >= rest.len() {
                assert((rest + tail)[k] == tail[k - rest.len()]);
            }
        }
    }
}

/// `rule` with every occurrence of variable `x` replaced by `body`.
fn splice_rule(rule: &Vec<SymbolIndex>, x: usize, body: &Vec<SymbolIndex>) -> (r: Vec<SymbolIndex>)
    ensures
        r@ == spliced(rule@, x as int, body@),
{
    let mut r: Vec<SymbolIndex> = Vec::new();
    let mut i: usize = 0;
    while i < rule.len()
        invariant
            i <= rule@.len(),
            r@ == spliced(rule@.take(i as int), x as int, body@),
        decreases rule@.len() - i,
    {
        let ghost r0 = r@;
        assert(rule@.take(i + 1).drop_last() =~= rule@.take(i as int));
        if rule[i] == SymbolIndex::VariableIndex(x) {
            let mut m: usize = 0;
            while m < body.len()
                invariant
                    m <= body@.len(),
                    r@ == r0 + body@.take(m as int),
                decreases body@.len() - m,
            {
                r.push(body[m]);
                m = m + 1;
                assert(r@ =~= r0 + body@.take(m as int));
            }
            assert(body@.take(body@.len() as int) =~= body@);
        } else {
            r.push(rule[i]);
            assert(r@ =~= r0 + seq![rule@[i as int]]);
        }
        i = i + 1;
    }
    assert(rule@.take(rule@.len() as int) =~= rule@);
    r
}

/// The users recorded so far, as sequences.
pub open spec fn usage_views(u: Seq<UsageList>) -> Seq<Seq<usize>> {
    u.map_values(|l: UsageList| l@)
}

/// Whether `g2` is `g` with the first inlinable variable inlined.
pub open spec fn inline_step(g: Seq<Seq<Seq<SymbolIndex>>>, start: int, g2: Seq<Seq<Seq<SymbolIndex>>>) -> bool {
    exists|x: int, w: int|
        #[trigger] inlinable(g, start, x) && (forall|y: int| 0 <= y < x ==> !inlinable(g, start, y)) && used_once_by(g, x, w)
            && g2 == #[trigger] inlined(g, x, w)
}

/// One pass of inlining: the first variable, other than the start variable,
/// that has one body and occurs exactly once has that body put in place of
/// its occurrence and is left without bodies. Returns whether there was one.
fn inline_single_use_symbols_single_pass(productions: Vec<Vec<Vec<SymbolIndex>>>, start_symbol: usize) -> (r: (
    Vec<Vec<Vec<SymbolIndex>>>,
    bool,
))
    requires
        variables_in_range(grammar_of(productions@)),
    ensures
        r.0@.len() == productions@.len(),
        forall|nt: nat| #[trigger] grammar_ok(grammar_of(productions@), nt) ==> grammar_ok(grammar_of(r.0@), nt),
        variables_in_range(grammar_of(r.0@)),
        r.1 ==> inline_step(grammar_of(productions@), start_symbol as int, grammar_of(r.0@)),
        !r.1 ==> grammar_of(r.0@) == grammar_of(productions@) && forall|x: int|
            0 <= x < productions@.len() ==> !#[trigger] inlinable(grammar_of(productions@), start_symbol as int, x),
{
    let ghost g = grammar_of(productions@);
    let mut productions = productions;
    let n = productions.len();
    let mut usages: Vec<UsageList> = Vec::new();
    while usages.len() < n
        invariant
            usages@.len() <= n,
            forall|x: int| 0 <= x < usages@.len() ==> (#[trigger] usages@[x])@.len() == 0,
        decreases n - usages@.len(),
    {
        usages.push(UsageList::new());
    }
    proof {
        assert forall|x: int| 0 <= x < g.len() implies #[trigger] usage_ok(g, usage_views(usages@)[x], x, 0, 0, 0) by {
            assert(usage_views(usages@)[x] == usages@[x]@);
        }
    }
    let mut h: usize = 0;
    while h < n
        invariant
            g == grammar_of(productions@),
            n == g.len(),
            variables_in_range(g),
            h <= n,
            usages_ok(g, usage_views(usages@), h as int, 0, 0),
        decreases n - h,
    {
        let rows = &productions[h];
        let mut j: usize = 0;
        while j < rows.len()
            invariant
                g == grammar_of(productions@),
                n == g.len(),
                variables_in_range(g),
                h < n,
                rows@ == productions@[h as int]@,
                j <= rows@.len(),
                usages_ok(g, usage_views(usages@), h as int, j as int, 0),
            decreases rows@.len() - j,
        {
            let rule = &rows[j];
            let mut k: usize = 0;
            while k < rule.len()
                invariant
                    g == grammar_of(productions@),
                    n == g.len(),
                    variables_in_range(g),
                    h < n,
                    j < g[h as int].len(),
                    rule@ == g[h as int][j as int],
                    k <= rule@.len(),
                    usages_ok(g, usage_views(usages@), h as int, j as int, k as int),
                decreases rule@.len() - k,
            {
                let ghost u0 = usage_views(usages@);
                let ghost c1 = (h as int, j as int, k as int);
                let ghost c2 = (h as int, j as int, k + 1);
                match rule[k] {
                    SymbolIndex::TerminalIndex(_) => {
                        proof {
                            assert forall|x: int| 0 <= x < g.len() implies #[trigger] usage_ok(g, u0[x], x, c2.0, c2.1, c2.2) by {
                                assert(usage_ok(g, u0[x], x, c1.0, c1.1, c1.2));
                                lemma_usage_move(g, u0[x], x, c1, c2);
                            }
                            assert(usages_ok(g, u0, c2.0, c2.1, c2.2));
                        }
                    },
                    SymbolIndex::VariableIndex(index) => {
                        assert(g[h as int][j as int][k as int] is VariableIndex);
                        if usages[index].len() >= 2 {
                            proof {
                                assert forall|x: int| 0 <= x < g.len() implies #[trigger] usage_ok(g, u0[x], x, c2.0, c2.1, c2.2) by {
                                    assert(usage_ok(g, u0[x], x, c1.0, c1.1, c1.2));
                                    if x == index {
                                        assert(u0[x] == usages@[x]@);
                                        lemma_usage_two(g, u0[x], x, c1, c2);
                                    } else {
                                        lemma_usage_move(g, u0[x], x, c1, c2);
                                    }
                                }
                                assert(usages_ok(g, u0, c2.0, c2.1, c2.2));
                            }
                        } else {
                            usages[index].push(h);
                            proof {
                                let u1 = usage_views(usages@);
                                assert(u1.len() == g.len());
                                assert forall|x: int| 0 <= x < g.len() implies #[trigger] usage_ok(g, u1[x], x, c2.0, c2.1, c2.2) by {
                                    assert(usage_ok(g, u0[x], x, c1.0, c1.1, c1.2));
                                    if x == index {
                                        assert(u1[x] == u0[x].push(h));
                                        assert(occurs_at(g, x, h as int, j as int, k as int));
                                        lemma_usage_push(g, u0[x], x, h as int, j as int, k as int);
                                    } else {
                                        assert(u1[x] == u0[x]);
                                        lemma_usage_move(g, u0[x], x, c1, c2);
                                    }
                                }
                                assert(usages_ok(g, u1, c2.0, c2.1, c2.2));
                            }
                        }
                    },
                }
                assert(usages_ok(g, usage_views(usages@), h as int, j as int, k + 1));
                k = k + 1;
            }
            proof {
                let u0 = usage_views(usages@);
                assert forall|x: int| 0 <= x < g.len() implies #[trigger] usage_ok(g, u0[x], x, h as int, j + 1, 0) by {
                    assert(usage_ok(g, u0[x], x, h as int, j as int, rule@.len() as int));
                    lemma_usage_move(g, u0[x], x, (h as int, j as int, rule@.len() as int), (h as int, j + 1, 0));
                }
            }
            j = j + 1;
        }
        proof {
            let u0 = usage_views(usages@);
            assert forall|x: int| 0 <= x < g.len() implies #[trigger] usage_ok(g, u0[x], x, h + 1, 0, 0) by {
                assert(usage_ok(g, u0[x], x, h as int, rows@.len() as int, 0));
                lemma_usage_move(g, u0[x], x, (h as int, rows@.len() as int, 0), (h + 1, 0, 0));
            }
        }
        h = h + 1;
    }
    // The first variable that can be inlined.
    let mut x: usize = 0;
    let mut found = false;
    while x < n
        invariant_except_break
            !found,
        invariant
            g == grammar_of(productions@),
            n == g.len(),
            x <= n,
            usages_ok(g, usage_views(usages@), n as int, 0, 0),
            forall|y: int| 0 <= y < x ==> !#[trigger] inlinable(g, start_symbol as int, y),
        ensures
            forall|y: int| 0 <= y < x ==> !#[trigger] inlinable(g, start_symbol as int, y),
            found ==> x < n && inlinable(g, start_symbol as int, x as int) && usages@[x as int]@.len() == 1,
            !found ==> x == n,
        decreases n - x,
    {
        proof {
            assert(usage_ok(g, usage_views(usages@)[x as int], x as int, n as int, 0, 0));
            assert(usage_views(usages@)[x as int] == usages@[x as int]@);
            lemma_usage_end(g, usages@[x as int]@, x as int);
        }
        if x != start_symbol && usages[x].len() == 1 && productions[x].len() == 1 {
            found = true;
            proof {
                assert(used_once_by(g, x as int, usages@[x as int]@[0] as int));
            }
            break;
        }
        x = x + 1;
    }
    if !found {
        return (productions, false);
    }
    let used = x;
    let using = usages[used].get(0);
    proof {
        assert(usage_ok(g, usage_views(usages@)[used as int], used as int, n as int, 0, 0));
        assert(usage_views(usages@)[used as int] == usages@[used as int]@);
        lemma_usage_end(g, usages@[used as int]@, used as int);
        let (j0, k0) = choose|j0: int, k0: int|
            #[trigger] occurs_at(g, used as int, using as int, j0, k0) && forall|v2: int, j2: int, k2: int|
                #[trigger] occurs_at(g, used as int, v2, j2, k2) ==> v2 == using && j2 == j0 && k2 == k0;
        assert(occurs_at(g, used as int, using as int, j0, k0));
    }
    let used_production = crate::cfg::cfg::clone_body(&productions[used][0]);
    let mut new_row: Vec<Vec<SymbolIndex>> = Vec::new();
    let mut i: usize = 0;
    while i < productions[using].len()
        invariant
            g == grammar_of(productions@),
            using < n,
            used < n,
            n == g.len(),
            g[used as int].len() == 1,
            used_production@ == g[used as int][0],
            i <= g[using as int].len(),
            new_row@.len() == i,
            forall|i2: int| 0 <= i2 < i ==> (#[trigger] new_row@[i2])@ == spliced(g[using as int][i2], used as int, g[used as int][0]),
        decreases g[using as int].len() - i,
    {
        let rule = splice_rule(&productions[using][i], used, &used_production);
        new_row.push(rule);
        i = i + 1;
    }
    productions.set(using, new_row);
    productions.set(used, Vec::new());
    proof {
        let g2 = grammar_of(productions@);
        let gi = inlined(g, used as int, using as int);
        assert(new_row@.len() == g[using as int].len());
        assert forall|v: int| 0 <= v < g2.len() implies #[trigger] g2[v] == gi[v] by {
            if v != used && v == using {
                assert(g2[v] =~= spliced_all(g[v], used as int, g[used as int][0]));
            } else if v == used {
                assert(g2[v] =~= gi[v]);
            }
        }
        assert(g2 =~= gi);
        assert(inlinable(g, start_symbol as int, used as int));
        assert(used_once_by(g, used as int, using as int));
        assert(forall|y: int| 0 <= y < used ==> !inlinable(g, start_symbol as int, y));
        assert(inline_step(g, start_symbol as int, g2));
        assert forall|nt: nat| #[trigger] grammar_ok(g, nt) implies grammar_ok(g2, nt) by {
            assert forall|v: int, j2: int, k2: int| 0 <= v < g2.len() && 0 <= j2 < g2[v].len() && 0 <= k2 < g2[v][j2].len()
                implies symbol_in(g2, nt, #[trigger] g2[v][j2][k2]) by {
                if v == using && v != used {
                    let ok = |s: SymbolIndex| symbol_in(g, nt, s);
                    assert forall|k: int| 0 <= k < g[v][j2].len() implies ok(#[trigger] g[v][j2][k]) by {
                        assert(symbol_in(g, nt, g[v][j2][k]));
                    }
                    assert forall|k: int| 0 <= k < g[used as int][0].len() implies ok(#[trigger] g[used as int][0][k]) by {
                        assert(symbol_in(g, nt, g[used as int][0][k]));
                    }
                    lemma_spliced_symbols(g[v][j2], used as int, g[used as int][0], ok);
                    assert(g2[v][j2] == spliced(g[v][j2], used as int, g[used as int][0]));
                    assert(ok(g2[v][j2][k2]));
                } else {
                    assert(symbol_in(g, nt, g[v][j2][k2]));
                }
            }
        }
        assert forall|v: int, j2: int, k2: int| 0 <= v < g2.len() && 0 <= j2 < g2[v].len() && 0 <= k2 < g2[v][j2].len() && (#[trigger] g2[v][j2][k2]) is VariableIndex
            implies g2[v][j2][k2]->VariableIndex_0 < g2.len() by {
            if v == using && v != used {
                let ok = |s: SymbolIndex| s is VariableIndex ==> s->VariableIndex_0 < g.len();
                assert forall|k: int| 0 <= k < g[v][j2].len() implies ok(#[trigger] g[v][j2][k]) by {}
                assert forall|k: int| 0 <= k < g[used as int][0].len() implies ok(#[trigger] g[used as int][0][k]) by {}
                lemma_spliced_symbols(g[v][j2], used as int, g[used as int][0], ok);
                assert(g2[v][j2] == spliced(g[v][j2], used as int, g[used as int][0]));
                assert(ok(g2[v][j2][k2]));
            }
        }
    }
    (productions, true)
}

/// The number of variables below `n` that have a body.
pub open spec fn rows_with_bodies(g: Seq<Seq<Seq<SymbolIndex>>>, n: int) -> nat
    decreases n,
{
    if n <= 0 {
        0
    } else {
        rows_with_bodies(g, n - 1) + if g[n - 1].len() > 0 { 1nat } else { 0nat }
    }
}

/// Emptying one variable with bodies, while no other variable gains or loses
/// all its bodies, leaves one variable with bodies less.
pub proof fn lemma_rows_with_bodies_drop(g: Seq<Seq<Seq<SymbolIndex>>>, g2: Seq<Seq<Seq<SymbolIndex>>>, x: int, n: int)
    requires
        0 <= x < g.len(),
        g2.len() == g.len(),
        g[x].len() > 0,
        g2[x].len() == 0,
        forall|v: int| 0 <= v < n && v != x ==> ((#[trigger] g2[v]).len() > 0 <==> g[v].len() > 0),
    ensures
        rows_with_bodies(g2, n) + (if x < n { 1nat } else { 0nat }) == rows_with_bodies(g, n),
    decreases n,
{
    if n > 0 {
        lemma_rows_with_bodies_drop(g, g2, x, n - 1);
    }
}

impl CFG {
    /// Inlines variables used once until none is left: each pass puts the
    /// only body of the first variable, other than the start variable, that
    /// has one body and occurs exactly once in place of that occurrence, and
    /// leaves the variable without bodies.
    pub fn inline_single_use_symbols(self) -> (r: Self)
        requires
            self.wf(),
        ensures
            r.wf(),
            r.terminals@ == self.terminals@,
            r.start_symbol == self.start_symbol,
            r.productions@.len() == self.productions@.len(),
            forall|x: int| 0 <= x < r.productions@.len() ==> !#[trigger] inlinable(r.g(), r.start_symbol as int, x),
            forall|w: Seq<Seq<char>>| #[trigger] r.generates_word(w) == self.generates_word(w),
            r._is_cleaned is None,
            r._in_normal_form is None,
    {
        let ghost nt = self.nt();
        let nv = self.productions.len();
        let mut productions = crate::cfg::cfg::clone_productions(&self.productions);
        let mut changed = true;
        while changed
            invariant
                nt == self.nt(),
                self.wf(),
                productions@.len() == nv,
                nv == self.productions@.len(),
                grammar_ok(grammar_of(productions@), nt),
                variables_in_range(grammar_of(productions@)),
                !changed ==> forall|x: int| 0 <= x < nv ==> !#[trigger] inlinable(grammar_of(productions@), self.start_symbol as int, x),
                forall|u: Seq<usize>| #[trigger] generates(grammar_of(productions@), SymbolIndex::VariableIndex(self.start_symbol), u)
                    == generates(self.g(), SymbolIndex::VariableIndex(self.start_symbol), u),
            decreases rows_with_bodies(grammar_of(productions@), nv as int) + if changed { 1nat } else { 0nat },
        {
            let ghost g0 = grammar_of(productions@);
            let (p2, c2) = inline_single_use_symbols_single_pass(productions, self.start_symbol);
            proof {
                assert(grammar_ok(g0, nt));
                if c2 {
                    let g2 = grammar_of(p2@);
                    let (x, w) = choose|x: int, w: int|
                        #[trigger] inlinable(g0, self.start_symbol as int, x) && (forall|y: int| 0 <= y < x ==> !inlinable(g0, self.start_symbol as int, y))
                            && used_once_by(g0, x, w) && g2 == #[trigger] inlined(g0, x, w);
                    let (j0, k0) = choose|j0: int, k0: int|
                        #[trigger] occurs_at(g0, x, w, j0, k0) && forall|v2: int, j2: int, k2: int|
                            #[trigger] occurs_at(g0, x, v2, j2, k2) ==> v2 == w && j2 == j0 && k2 == k0;
                    assert(occurs_at(g0, x, w, j0, k0));
                    assert(g2.len() == g0.len());
                    assert forall|v: int| 0 <= v < nv && v != x implies ((#[trigger] g2[v]).len() > 0 <==> g0[v].len() > 0) by {
                        if v == w {
                            assert(g2[v] == spliced_all(g0[w], x, g0[x][0]));
                        }
                    }
                    lemma_rows_with_bodies_drop(g0, g2, x, nv as int);
                    let st = SymbolIndex::VariableIndex(self.start_symbol);
                    assert(symbol_in(g0, nt, st));
                    assert(crate::cfg::inline_words::inlining(g0, g2, self.start_symbol as int, x as usize, w));
                    assert forall|u: Seq<usize>| #[trigger] generates(g2, st, u) == generates(g0, st, u) by {
                        if generates(g2, st, u) {
                            let h = choose|h: nat| #[trigger] derives(g2, h, st, u);
                            crate::cfg::inline_words::lemma_inline_back(g0, g2, nt, self.start_symbol as int, x as usize, w, h, st, u);
                        }
                        if generates(g0, st, u) {
                            let h = choose|h: nat| #[trigger] derives(g0, h, st, u);
                            crate::cfg::inline_words::lemma_inline_forward(g0, g2, nt, self.start_symbol as int, x as usize, w, h, st, u);
                        }
                    }
                }
            }
            productions = p2;
            changed = c2;
        }
        let r = CFG::new(Some(self.terminal_map.clone()), clone_terminals(&self.terminals), self.start_symbol, productions);
        proof {
            assert forall|w: Seq<Seq<char>>| #[trigger] r.generates_word(w) == self.generates_word(w) by {
                if r.generates_word(w) {
                    let u = choose|u: Seq<usize>| #[trigger] generates(r.g(), SymbolIndex::VariableIndex(r.start_symbol), u)
                        && terminal_names(r.terminals@, u) == w;
                    assert(generates(self.g(), SymbolIndex::VariableIndex(self.start_symbol), u));
                }
                if self.generates_word(w) {
                    let u = choose|u: Seq<usize>| #[trigger] generates(self.g(), SymbolIndex::VariableIndex(self.start_symbol), u)
                        && terminal_names(self.terminals@, u) == w;
                    assert(generates(r.g(), SymbolIndex::VariableIndex(r.start_symbol), u));
                }
            }
        }
        r
    }
}

/// Whether no two bodies of two symbols or more in `bs` start with the same symbol.
pub open spec fn left_factored(bs: Seq<Seq<SymbolIndex>>) -> bool {
    forall|j1: int, j2: int|
        0 <= j1 < bs.len() && 0 <= j2 < bs.len() && j1 != j2 && (#[trigger] bs[j1]).len() >= 2 && (#[trigger] bs[j2]).len() >= 2
            ==> bs[j1][0] != bs[j2][0]
}

/// Whether body `b` is one of `orig`, or a symbol followed by a new variable,
/// numbered from `nv` and below the number of variables of `gnp`, whose
/// bodies are each what follows that symbol in a body of `orig`.
pub open spec fn factored_body(orig: Seq<Seq<SymbolIndex>>, nv: nat, gnp: Seq<Seq<Seq<SymbolIndex>>>, b: Seq<SymbolIndex>) -> bool {
    ||| orig.contains(b)
    ||| (b.len() == 2 && b[1] is VariableIndex && nv <= b[1]->VariableIndex_0 < gnp.len()
        && forall|j: int| 0 <= j < gnp[b[1]->VariableIndex_0 as int].len()
            ==> orig.contains(seq![b[0]] + #[trigger] gnp[b[1]->VariableIndex_0 as int][j]))
}

/// Whether `m` lists, for every symbol, in increasing order, the positions
/// below `i` of the bodies of two symbols or more of `cur` that start with it.
pub open spec fn prefixes_ok(cur: Seq<Seq<SymbolIndex>>, m: Map<SymbolIndex, Seq<usize>>, i: int) -> bool {
    &&& forall|key: SymbolIndex, t: int| #[trigger] m.contains_key(key) && 0 <= t < m[key].len() ==> {
        let p = #[trigger] m[key][t] as int;
        &&& p < i
        &&& cur[p].len() >= 2
        &&& cur[p][0] == key
    }
    &&& forall|key: SymbolIndex, t1: int, t2: int|
        m.contains_key(key) && 0 <= t1 < t2 < m[key].len() ==> #[trigger] m[key][t1] < #[trigger] m[key][t2]
    &&& forall|p: int| 0 <= p < i && (#[trigger] cur[p]).len() >= 2 ==> m.contains_key(cur[p][0]) && m[cur[p][0]].contains(p as usize)
}

/// Whether every symbol of the bodies `bs` is in range for a grammar of `n`
/// variables and `nt` terminals.
pub open spec fn bodies_in_range(bs: Seq<Seq<SymbolIndex>>, n: nat, nt: nat) -> bool {
    forall|j: int, k: int| 0 <= j < bs.len() && 0 <= k < bs[j].len() ==> match #[trigger] bs[j][k] {
        SymbolIndex::TerminalIndex(t) => t < nt,
        SymbolIndex::VariableIndex(v) => v < n,
    }
}

/// The bodies, each by its view.
pub open spec fn views(v: Seq<Vec<SymbolIndex>>) -> Seq<Seq<SymbolIndex>> {
    v.map_values(|b: Vec<SymbolIndex>| b@)
}

/// Whether body `b` is a symbol followed by a variable numbered from `nv`.
pub open spec fn new_form(b: Seq<SymbolIndex>, nv: nat) -> bool {
    b.len() == 2 && b[1] is VariableIndex && b[1]->VariableIndex_0 >= nv
}

/// Whether body `b` is kept among `bs`, or is replaced there by its first
/// symbol followed by a variable numbered from `nv` that has the rest of
/// `b` among its bodies in `gnp`.
pub open spec fn covered(bs: Seq<Seq<SymbolIndex>>, gnp: Seq<Seq<Seq<SymbolIndex>>>, nv: nat, b: Seq<SymbolIndex>) -> bool {
    ||| bs.contains(b)
    ||| b.len() >= 2 && exists|x: int| nv <= x < gnp.len() && #[trigger] bs.contains(head_then(b[0], x))
        && gnp[x].contains(b.subrange(1, b.len() as int))
}

/// The body of symbol `s` followed by variable `x`.
pub open spec fn head_then(s: SymbolIndex, x: int) -> Seq<SymbolIndex> {
    seq![s, SymbolIndex::VariableIndex(x as usize)]
}

/// Whether no other body of two symbols or more starts like a body of the new form.
pub open spec fn new_form_unique(bs: Seq<Seq<SymbolIndex>>, nv: nat) -> bool {
    forall|j1: int, j2: int| 0 <= j1 < bs.len() && 0 <= j2 < bs.len() && j1 != j2 && new_form(#[trigger] bs[j1], nv) && (#[trigger] bs[j2]).len() >= 2
        ==> bs[j1][0] != bs[j2][0]
}

/// The bodies of `cur`, each copied.
fn clone_bodies(cur: &Vec<Vec<SymbolIndex>>) -> (r: Vec<Vec<SymbolIndex>>)
    ensures
        r@.len() == cur@.len(),
        forall|j: int| 0 <= j < cur@.len() ==> (#[trigger] r@[j])@ == cur@[j]@,
{
    let mut r: Vec<Vec<SymbolIndex>> = Vec::new();
    let mut j: usize = 0;
    while j < cur.len()
        invariant
            j <= cur@.len(),
            r@.len() == j,
            forall|j2: int| 0 <= j2 < j ==> (#[trigger] r@[j2])@ == cur@[j2]@,
        decreases cur@.len() - j,
    {
        r.push(crate::cfg::cfg::clone_body(&cur[j]));
        j = j + 1;
    }
    r
}

/// Left-factors the bodies `orig` of one variable: while two bodies of two
/// symbols or more start with the same symbol, they are replaced by that
/// symbol followed by a new variable, appended to `np`, whose bodies are
/// their rests. Returns the new bodies and whether any were factored.
fn factor_bodies(orig: &Vec<Vec<SymbolIndex>>, np: &mut Vec<Vec<Vec<SymbolIndex>>>, Ghost(nt): Ghost<nat>) -> (r: (Vec<Vec<SymbolIndex>>, bool))
    requires
        bodies_in_range(orig@.map_values(|b: Vec<SymbolIndex>| b@), old(np)@.len() as nat, nt),
        forall|y: int| 0 <= y < old(np)@.len() ==> bodies_in_range(#[trigger] grammar_of(old(np)@)[y], old(np)@.len() as nat, nt),
    ensures
        final(np)@.len() >= old(np)@.len(),
        forall|y: int| 0 <= y < old(np)@.len() ==> #[trigger] final(np)@[y] == old(np)@[y],
        forall|y: int| 0 <= y < final(np)@.len() ==> bodies_in_range(#[trigger] grammar_of(final(np)@)[y], final(np)@.len() as nat, nt),
        bodies_in_range(r.0@.map_values(|b: Vec<SymbolIndex>| b@), final(np)@.len() as nat, nt),
        left_factored(r.0@.map_values(|b: Vec<SymbolIndex>| b@)),
        forall|j: int| 0 <= j < r.0@.len() ==> factored_body(
            orig@.map_values(|b: Vec<SymbolIndex>| b@),
            old(np)@.len() as nat,
            grammar_of(final(np)@),
            #[trigger] r.0@[j]@,
        ),
        r.1 <==> final(np)@.len() > old(np)@.len(),
        forall|i: int| 0 <= i < orig@.len() ==> #[trigger] covered(
            views(r.0@),
            grammar_of(final(np)@),
            old(np)@.len() as nat,
            orig@[i]@,
        ),
{
    let ghost ov = orig@.map_values(|b: Vec<SymbolIndex>| b@);
    let ghost nv = np@.len();
    let ghost np0 = np@;
    let mut cur = clone_bodies(orig);
    assert(cur@.map_values(|b: Vec<SymbolIndex>| b@) =~= ov);
    assert forall|j: int| 0 <= j < cur@.len() implies factored_body(ov, nv as nat, grammar_of(np@), #[trigger] cur@[j]@) by {
        assert(ov[j] == cur@[j]@);
    }
    proof {
        assert forall|i: int| 0 <= i < orig@.len() implies #[trigger] covered(views(cur@), grammar_of(np@), nv as nat, orig@[i]@) by {
            assert(views(cur@)[i] == orig@[i]@);
        }
        assert forall|j1: int, j2: int| 0 <= j1 < views(cur@).len() && 0 <= j2 < views(cur@).len() && j1 != j2 && new_form(#[trigger] views(cur@)[j1], nv as nat) && (#[trigger] views(cur@)[j2]).len() >= 2
            implies views(cur@)[j1][0] != views(cur@)[j2][0] by {
            assert(views(cur@)[j1] == ov[j1]);
            assert(views(cur@)[j1][1] matches SymbolIndex::VariableIndex(v) ==> v < nv);
        }
    }
    let mut overall_changed = false;
    let mut changed = true;
    while changed
        invariant
            forall|i: int| 0 <= i < orig@.len() ==> #[trigger] covered(views(cur@), grammar_of(np@), nv as nat, orig@[i]@),
            new_form_unique(views(cur@), nv as nat),
            nv <= np@.len(),
            forall|y: int| 0 <= y < nv ==> #[trigger] np@[y] == np0[y],
            forall|y: int| 0 <= y < np@.len() ==> bodies_in_range(#[trigger] grammar_of(np@)[y], np@.len() as nat, nt),
            bodies_in_range(cur@.map_values(|b: Vec<SymbolIndex>| b@), np@.len() as nat, nt),
            forall|j: int| 0 <= j < cur@.len() ==> factored_body(ov, nv as nat, grammar_of(np@), #[trigger] cur@[j]@),
            !changed ==> left_factored(cur@.map_values(|b: Vec<SymbolIndex>| b@)),
            overall_changed <==> np@.len() > nv,
        decreases cur@.len() + if changed { 1int } else { 0int },
    {
        let ghost cv = cur@.map_values(|b: Vec<SymbolIndex>| b@);
        changed = false;
        let mut prefixes = PrefixMap::new();
        let mut i: usize = 0;
        while i < cur.len()
            invariant
                i <= cur@.len(),
                cv == cur@.map_values(|b: Vec<SymbolIndex>| b@),
                prefixes_ok(cv, prefixes@, i as int),
            decreases cur@.len() - i,
        {
            if cur[i].len() >= 2 {
                let ghost m0 = prefixes@;
                prefixes.push(cur[i][0], i);
                proof {
                    let m = prefixes@;
                    let key = cv[i as int][0];
                    assert forall|key2: SymbolIndex, t: int| #[trigger] m.contains_key(key2) && 0 <= t < m[key2].len() implies {
                        let p = #[trigger] m[key2][t] as int;
                        &&& p < i + 1
                        &&& cv[p].len() >= 2
                        &&& cv[p][0] == key2
                    } by {
                        if key2 != key || t < m[key2].len() - 1 {
                            assert(m0.contains_key(key2));
                            assert(m[key2][t] == m0[key2][t]);
                        }
                    }
                    assert forall|key2: SymbolIndex, t1: int, t2: int|
                        m.contains_key(key2) && 0 <= t1 < t2 < m[key2].len() implies #[trigger] m[key2][t1] < #[trigger] m[key2][t2] by {
                        if key2 == key && t2 == m[key2].len() - 1 {
                            if m0.contains_key(key2) {
                                assert(m[key2][t1] == m0[key2][t1]);
                            }
                        } else {
                            assert(m[key2][t1] == m0[key2][t1]);
                            assert(m[key2][t2] == m0[key2][t2]);
                        }
                    }
                    assert forall|p: int| 0 <= p < i + 1 && (#[trigger] cv[p]).len() >= 2 implies m.contains_key(cv[p][0]) && m[cv[p][0]].contains(p as usize) by {
                        if p < i {
                            let t = choose|t: int| 0 <= t < m0[cv[p][0]].len() && m0[cv[p][0]][t] == p as usize;
                            assert(m[cv[p][0]][t] == p as usize);
                        } else {
                            assert(m[key][m[key].len() - 1] == p as usize);
                        }
                    }
                }
            }
            i = i + 1;
        }
        let entries = prefixes.entries();
        let mut t: usize = 0;
        while t < entries.len()
            invariant_except_break
                !changed,
                cv == cur@.map_values(|b: Vec<SymbolIndex>| b@),
                prefixes_ok(cv, prefixes@, cur@.len() as int),
            invariant
                t <= entries@.len(),
                forall|t2: int| 0 <= t2 < t ==> (#[trigger] entries@[t2]).1@.len() < 2,
                nv <= np@.len(),
                forall|y: int| 0 <= y < nv ==> #[trigger] np@[y] == np0[y],
                forall|y: int| 0 <= y < np@.len() ==> bodies_in_range(#[trigger] grammar_of(np@)[y], np@.len() as nat, nt),
                bodies_in_range(cv, np@.len() as nat, nt),
                forall|j: int| 0 <= j < cur@.len() ==> factored_body(ov, nv as nat, grammar_of(np@), #[trigger] cur@[j]@),
                overall_changed <==> np@.len() > nv,
                forall|i: int| 0 <= i < entries@.len() ==> prefixes@.contains_key((#[trigger] entries@[i]).0) && entries@[i].1@ == prefixes@[entries@[i].0],
                forall|i: int| 0 <= i < orig@.len() ==> #[trigger] covered(views(cur@), grammar_of(np@), nv as nat, orig@[i]@),
                new_form_unique(views(cur@), nv as nat),
            ensures
                forall|i: int| 0 <= i < orig@.len() ==> #[trigger] covered(views(cur@), grammar_of(np@), nv as nat, orig@[i]@),
                new_form_unique(views(cur@), nv as nat),
                !changed ==> forall|t2: int| 0 <= t2 < entries@.len() ==> (#[trigger] entries@[t2]).1@.len() < 2,
                changed ==> cur@.len() < cv.len() && np@.len() > nv && overall_changed,
                nv <= np@.len(),
                forall|y: int| 0 <= y < nv ==> #[trigger] np@[y] == np0[y],
                forall|y: int| 0 <= y < np@.len() ==> bodies_in_range(#[trigger] grammar_of(np@)[y], np@.len() as nat, nt),
                bodies_in_range(cur@.map_values(|b: Vec<SymbolIndex>| b@), np@.len() as nat, nt),
                forall|j: int| 0 <= j < cur@.len() ==> factored_body(ov, nv as nat, grammar_of(np@), #[trigger] cur@[j]@),
                overall_changed <==> np@.len() > nv,
                !changed ==> cv == cur@.map_values(|b: Vec<SymbolIndex>| b@),
            decreases entries@.len() - t,
        {
            let prefix = entries[t].0;
            let group = &entries[t].1;
            if group.len() < 2 {
                t = t + 1;
                continue;
            }
            let ghost key = prefix;
            proof {
                assert(entries@[t as int].0 == prefix);
                assert(entries@[t as int].1 == *group);
                assert(prefixes@.contains_key(key) && group@ == prefixes@[key]);
                assert(group@[0] < group@[1]);
            }
            let mut in_group = IndexSet::new();
            let mut x: usize = 0;
            while x < group.len()
                invariant
                    x <= group@.len(),
                    forall|y: usize| #[trigger] in_group@.contains(y) <==> exists|t2: int| 0 <= t2 < x && group@[t2] == y,
                decreases group@.len() - x,
            {
                in_group.insert(group[x]);
                proof {
                    assert forall|y: usize| #[trigger] in_group@.contains(y) implies exists|t2: int| 0 <= t2 < x + 1 && group@[t2] == y by {
                        if y != group@[x as int] {
                            let t2 = choose|t2: int| 0 <= t2 < x && group@[t2] == y;
                        }
                    }
                }
                x = x + 1;
            }
            proof {
                assert(in_group@.contains(group@[0]));
                assert(in_group@.contains(group@[1]));
                assert forall|y: usize| #[trigger] in_group@.contains(y) <==> group@.contains(y) by {
                    if group@.contains(y) {
                        let t2 = choose|t2: int| 0 <= t2 < group@.len() && group@[t2] == y;
                    }
                }
            }
            let new_index = np.len();
            let mut cur2: Vec<Vec<SymbolIndex>> = Vec::new();
            let mut skipped: usize = 0;
            let ghost mut from: Seq<int> = Seq::empty();
            let mut i2: usize = 0;
            while i2 < cur.len()
                invariant
                    i2 <= cur@.len(),
                    group@.len() >= 2,
                    cv == cur@.map_values(|b: Vec<SymbolIndex>| b@),
                    cur2@.len() + skipped == i2,
                    skipped >= (if group@[0] < i2 { 1int } else { 0int }) + (if group@[1] < i2 { 1int } else { 0int }),
                    in_group@.contains(group@[0]),
                    in_group@.contains(group@[1]),
                    group@[0] < group@[1],
                    from.len() == cur2@.len(),
                    forall|j: int| 0 <= j < cur2@.len() ==> 0 <= #[trigger] from[j] < i2 && cur2@[j]@ == cv[from[j]],
                    forall|y: usize| #[trigger] in_group@.contains(y) <==> group@.contains(y),
                    forall|j: int| 0 <= j < cur2@.len() ==> !group@.contains(#[trigger] from[j] as usize),
                    forall|j1: int, j2: int| 0 <= j1 < j2 < cur2@.len() ==> #[trigger] from[j1] < #[trigger] from[j2],
                    forall|i: int| 0 <= i < i2 && !#[trigger] group@.contains(i as usize) ==> exists|j: int| 0 <= j < cur2@.len() && #[trigger] from[j] == i,
                decreases cur@.len() - i2,
            {
                let ghost from0 = from;
                if in_group.contains(i2) {
                    skipped = skipped + 1;
                } else {
                    assert(i2 != group@[0] && i2 != group@[1]);
                    cur2.push(crate::cfg::cfg::clone_body(&cur[i2]));
                    proof {
                        from = from.push(i2 as int);
                        assert forall|i: int| 0 <= i < i2 + 1 && !#[trigger] group@.contains(i as usize) implies exists|j: int| 0 <= j < cur2@.len() && #[trigger] from[j] == i by {
                            if i < i2 {
                                let j = choose|j: int| 0 <= j < from0.len() && #[trigger] from0[j] == i;
                                assert(from[j] == i);
                            } else {
                                assert(from[from.len() - 1] == i);
                            }
                        }
                    }
                }
                i2 = i2 + 1;
            }
            proof {
                assert(group@[1] < cur@.len());
                assert(skipped >= 2);
            }
            let ghost before_np = np@;
            let mut tails: Vec<Vec<SymbolIndex>> = Vec::new();
            let mut x: usize = 0;
            while x < group.len()
                invariant
                    x <= group@.len(),
                    group@ == prefixes@[key],
                    prefixes@.contains_key(key),
                    prefixes_ok(cv, prefixes@, cur@.len() as int),
                    cv == cur@.map_values(|b: Vec<SymbolIndex>| b@),
                    tails@.len() == x,
                    forall|j: int| 0 <= j < x ==> exists|p: int| 0 <= p < cv.len() && cv[p].len() >= 2 && (#[trigger] tails@[j])@ == cv[p].subrange(1, cv[p].len() as int),
                    forall|j: int| 0 <= j < x ==> (#[trigger] tails@[j])@ == cv[group@[j] as int].subrange(1, cv[group@[j] as int].len() as int),
                decreases group@.len() - x,
            {
                let p = group[x];
                proof {
                    assert(prefixes@[key][x as int] == p);
                }
                tails.push(crate::cfg::decompose::suffix_from(&cur[p], 1));
                x = x + 1;
            }
            np.push(tails);
            cur2.push(crate::cfg::intersection::body_of_two(prefix, SymbolIndex::VariableIndex(new_index)));
            proof {
                let n2 = np@.len() as nat;
                let c2v = cur2@.map_values(|b: Vec<SymbolIndex>| b@);
                assert forall|y: int| 0 <= y < np@.len() implies bodies_in_range(#[trigger] grammar_of(np@)[y], n2, nt) by {
                    if y < before_np.len() {
                        assert(np@[y] == before_np[y]);
                        assert(bodies_in_range(grammar_of(before_np)[y], before_np.len() as nat, nt));
                        assert(grammar_of(np@)[y] == grammar_of(before_np)[y]);
                    } else {
                        let tv = grammar_of(np@)[y];
                        assert forall|j: int, k: int| 0 <= j < tv.len() && 0 <= k < tv[j].len() implies match #[trigger] tv[j][k] {
                            SymbolIndex::TerminalIndex(t) => t < nt,
                            SymbolIndex::VariableIndex(v) => v < n2,
                        } by {
                            let p = choose|p: int| 0 <= p < cv.len() && cv[p].len() >= 2 && (#[trigger] tails@[j])@ == cv[p].subrange(1, cv[p].len() as int);
                            assert(tv[j] == tails@[j]@);
                            assert(tv[j][k] == cv[p][k + 1]);
                        }
                    }
                }
                assert forall|j: int, k: int| 0 <= j < c2v.len() && 0 <= k < c2v[j].len() implies match #[trigger] c2v[j][k] {
                    SymbolIndex::TerminalIndex(t) => t < nt,
                    SymbolIndex::VariableIndex(v) => v < n2,
                } by {
                    if j < cur2@.len() - 1 {
                        let j2 = from[j];
                        assert(c2v[j] == cv[j2]);
                    } else {
                        let p = group@[0] as int;
                        assert(cv[p][0] == key);
                        assert(cv[p][0] == cv[p][0]);
                    }
                }
                assert forall|y: int| 0 <= y < nv implies #[trigger] np@[y] == np0[y] by {
                    assert(np@[y] == before_np[y]);
                }
            }
            proof {
                let c2v = views(cur2@);
                let gn1 = grammar_of(before_np);
                let gn2 = grammar_of(np@);
                let last = cur2@.len() - 1;
                assert(c2v[last] == seq![key, SymbolIndex::VariableIndex(new_index)]);
                assert(gn2[new_index as int] == tails@.map_values(|b: Vec<SymbolIndex>| b@));
                assert forall|y: int| 0 <= y < before_np.len() implies gn2[y] == #[trigger] gn1[y] by {
                    assert(np@[y] == before_np[y]);
                }
                assert forall|j: int| 0 <= j < last implies #[trigger] c2v[j] == cv[from[j]] by {}
                assert forall|j: int| 0 <= j < cur2@.len() implies factored_body(ov, nv as nat, gn2, #[trigger] cur2@[j]@) by {
                    if j < last {
                        let j2 = from[j];
                        assert(cv[j2] == cur@[j2]@);
                        assert(factored_body(ov, nv as nat, gn1, cur@[j2]@));
                        if !ov.contains(cv[j2]) {
                            let x = cv[j2][1]->VariableIndex_0 as int;
                            assert(gn2[x] == gn1[x]);
                        }
                        assert(c2v[j] == cur2@[j]@);
                    } else {
                        let tv = gn2[new_index as int];
                        assert forall|j3: int| 0 <= j3 < tv.len() implies ov.contains(seq![key] + #[trigger] tv[j3]) by {
                            let p = group@[j3] as int;
                            assert(prefixes@[key][j3] == group@[j3]);
                            assert(cv[p].len() >= 2 && cv[p][0] == key);
                            assert(tv[j3] == tails@[j3]@);
                            assert(seq![key] + tv[j3] =~= cv[p]);
                            assert(factored_body(ov, nv as nat, gn1, cur@[p]@));
                            if !ov.contains(cv[p]) {
                                assert(new_form(views(cur@)[p], nv as nat));
                                let other = if j3 == 0 { 1int } else { 0int };
                                assert(prefixes@[key][other] == group@[other]);
                                let po = group@[other] as int;
                                assert(group@[0] != group@[1]);
                                assert(cv[po].len() >= 2 && cv[po][0] == key);
                                assert(views(cur@)[po] == cv[po]);
                                assert(false);
                            }
                        }
                        assert(cur2@[j]@ == c2v[last]);
                    }
                }
                assert forall|i: int| 0 <= i < orig@.len() implies #[trigger] covered(c2v, gn2, nv as nat, orig@[i]@) by {
                    let b = orig@[i]@;
                    assert(covered(cv, gn1, nv as nat, b));
                    if cv.contains(b) {
                        let p0 = choose|p0: int| 0 <= p0 < cv.len() && cv[p0] == b;
                        if group@.contains(p0 as usize) {
                            let t2 = choose|t2: int| 0 <= t2 < group@.len() && group@[t2] == p0 as usize;
                            assert(prefixes@[key][t2] == p0 as usize);
                            assert(cv[p0].len() >= 2 && cv[p0][0] == key);
                            assert(tails@[t2]@ == b.subrange(1, b.len() as int));
                            assert(gn2[new_index as int][t2] == b.subrange(1, b.len() as int));
                            assert(gn2[new_index as int].contains(b.subrange(1, b.len() as int)));
                            assert(c2v[last] == head_then(b[0], new_index as int));
                            assert(c2v.contains(head_then(b[0], new_index as int)));
                        } else {
                            let j = choose|j: int| 0 <= j < cur2@.len() - 1 && #[trigger] from[j] == p0;
                            assert(c2v[j] == b);
                        }
                    } else {
                        let xx = choose|xx: int| nv <= xx < gn1.len() && #[trigger] cv.contains(head_then(b[0], xx))
                            && gn1[xx].contains(b.subrange(1, b.len() as int));
                        let nb = head_then(b[0], xx);
                        let p1 = choose|p1: int| 0 <= p1 < cv.len() && cv[p1] == nb;
                        assert(new_form(cv[p1], nv as nat));
                        if group@.contains(p1 as usize) {
                            let t2 = choose|t2: int| 0 <= t2 < group@.len() && group@[t2] == p1 as usize;
                            let other = if t2 == 0 { 1int } else { 0int };
                            assert(prefixes@[key][t2] == p1 as usize);
                            assert(prefixes@[key][other] == group@[other]);
                            assert(group@[0] != group@[1]);
                            let po = group@[other] as int;
                            assert(cv[po].len() >= 2 && cv[po][0] == key);
                            assert(cv[p1][0] == key);
                            assert(false);
                        }
                        let j = choose|j: int| 0 <= j < cur2@.len() - 1 && #[trigger] from[j] == p1;
                        assert(c2v[j] == nb);
                        assert(gn2[xx] == gn1[xx]);
                        assert(c2v.contains(nb));
                    }
                }
                assert forall|j1: int, j2: int| 0 <= j1 < c2v.len() && 0 <= j2 < c2v.len() && j1 != j2 && new_form(#[trigger] c2v[j1], nv as nat) && (#[trigger] c2v[j2]).len() >= 2
                    implies c2v[j1][0] != c2v[j2][0] by {
                    if j1 < last && j2 < last {
                        if from[j1] < from[j2] || from[j2] < from[j1] {
                            assert(new_form(cv[from[j1]], nv as nat));
                            assert(cv[from[j2]].len() >= 2);
                        } else {
                            if j1 < j2 { assert(from[j1] < from[j2]); } else { assert(from[j2] < from[j1]); }
                        }
                    } else if j1 == last {
                        let p2 = from[j2];
                        if cv[p2][0] == key {
                            assert(prefixes@.contains_key(cv[p2][0]) && prefixes@[cv[p2][0]].contains(p2 as usize));
                            assert(group@.contains(p2 as usize));
                        }
                    } else {
                        let p1 = from[j1];
                        assert(cv[p1].len() >= 2);
                        if cv[p1][0] == key {
                            assert(prefixes@.contains_key(cv[p1][0]) && prefixes@[cv[p1][0]].contains(p1 as usize));
                            assert(group@.contains(p1 as usize));
                        }
                    }
                }
            }
            cur = cur2;
            changed = true;
            overall_changed = true;
            break;
        }
        proof {
            if !changed {
                let cvv = cur@.map_values(|b: Vec<SymbolIndex>| b@);
                assert forall|j1: int, j2: int|
                    0 <= j1 < cvv.len() && 0 <= j2 < cvv.len() && j1 != j2 && (#[trigger] cvv[j1]).len() >= 2 && (#[trigger] cvv[j2]).len() >= 2
                    implies cvv[j1][0] != cvv[j2][0] by {
                    if cvv[j1][0] == cvv[j2][0] {
                        let key = cvv[j1][0];
                        let m = prefixes@;
                        assert(m.contains_key(key) && m[key].contains(j1 as usize) && m[key].contains(j2 as usize));
                        let ti = choose|ti: int| 0 <= ti < entries@.len() && (#[trigger] entries@[ti]).0 == key;
                        assert(entries@[ti].1@ == m[key]);
                        let a = choose|a: int| 0 <= a < m[key].len() && m[key][a] == j1 as usize;
                        let b = choose|b: int| 0 <= b < m[key].len() && m[key][b] == j2 as usize;
                        assert(a != b);
                        assert(m[key].len() >= 2);
                    }
                }
            }
        }
    }
    (cur, overall_changed)
}

impl CFG {
    /// Left-factors every variable: while two of its bodies of two symbols or
    /// more start with the same symbol, they are replaced by that symbol
    /// followed by a new variable whose bodies are their rests. Returns the
    /// grammar and whether any variable was added.
    pub fn eliminate_common_prefix(&self) -> (r: (Self, bool))
        requires
            self.wf(),
        ensures
            r.0.wf(),
            r.0.terminals@ == self.terminals@,
            r.0.start_symbol == self.start_symbol,
            r.0.productions@.len() >= self.productions@.len(),
            forall|v: int| 0 <= v < self.productions@.len() ==> left_factored(#[trigger] r.0.g()[v]),
            forall|v: int, j: int| 0 <= v < self.productions@.len() && 0 <= j < r.0.g()[v].len()
                ==> factored_body(self.g()[v], self.productions@.len() as nat, r.0.g(), #[trigger] r.0.g()[v][j]),
            forall|v: int, i: int| 0 <= v < self.productions@.len() && 0 <= i < self.g()[v].len()
                ==> #[trigger] covered(r.0.g()[v], r.0.g(), self.productions@.len() as nat, self.g()[v][i]),
            r.1 <==> r.0.productions@.len() > self.productions@.len(),
            forall|w: Seq<Seq<char>>| #[trigger] r.0.generates_word(w) == self.generates_word(w),
            r.0._is_cleaned is None,
            r.0._in_normal_form is None,
    {
        let ghost g = self.g();
        let ghost nt = self.nt();
        let nv = self.productions.len();
        let mut np: Vec<Vec<Vec<SymbolIndex>>> = Vec::new();
        while np.len() < nv
            invariant
                np@.len() <= nv,
                forall|y: int| 0 <= y < np@.len() ==> (#[trigger] np@[y])@.len() == 0,
            decreases nv - np@.len(),
        {
            np.push(Vec::new());
        }
        let mut v: usize = 0;
        while v < nv
            invariant
                self.wf(),
                g == self.g(),
                nt == self.nt(),
                nv == g.len(),
                v <= nv,
                np@.len() >= nv,
                forall|y: int| v <= y < nv ==> (#[trigger] np@[y])@.len() == 0,
                forall|y: int| 0 <= y < np@.len() ==> bodies_in_range(#[trigger] grammar_of(np@)[y], np@.len() as nat, nt),
                forall|y: int| 0 <= y < v ==> left_factored(#[trigger] grammar_of(np@)[y]),
                forall|y: int, j: int| 0 <= y < v && 0 <= j < grammar_of(np@)[y].len()
                    ==> factored_body(g[y], nv as nat, grammar_of(np@), #[trigger] grammar_of(np@)[y][j]),
                forall|y: int, i: int| 0 <= y < v && 0 <= i < g[y].len()
                    ==> #[trigger] covered(grammar_of(np@)[y], grammar_of(np@), nv as nat, g[y][i]),
            decreases nv - v,
        {
            let ghost np0 = np@;
            proof {
                let ov = self.productions@[v as int]@.map_values(|b: Vec<SymbolIndex>| b@);
                assert(ov == g[v as int]);
                assert forall|j: int, k: int| 0 <= j < ov.len() && 0 <= k < ov[j].len() implies match #[trigger] ov[j][k] {
                    SymbolIndex::TerminalIndex(t) => t < nt,
                    SymbolIndex::VariableIndex(x) => x < np@.len() as nat,
                } by {
                    assert(symbol_in(g, nt, g[v as int][j][k]));
                }
            }
            let (row, _) = factor_bodies(&self.productions[v], &mut np, Ghost(nt));
            let ghost np1 = np@;
            np.set(v, row);
            proof {
                let gn = grammar_of(np@);
                let rv = row@.map_values(|b: Vec<SymbolIndex>| b@);
                assert(gn[v as int] == rv);
                assert forall|y: int| 0 <= y < np@.len() implies bodies_in_range(#[trigger] grammar_of(np@)[y], np@.len() as nat, nt) by {
                    if y != v {
                        assert(gn[y] == grammar_of(np1)[y]);
                    }
                }
                assert forall|y: int| 0 <= y < v + 1 implies left_factored(#[trigger] grammar_of(np@)[y]) by {
                    if y < v {
                        assert(gn[y] == grammar_of(np0)[y]);
                    }
                }
                assert forall|x: int| nv <= x < np1.len() implies #[trigger] gn[x] == grammar_of(np1)[x] by {}
                assert forall|x: int| nv <= x < np0.len() implies #[trigger] grammar_of(np1)[x] == grammar_of(np0)[x] by {
                    assert(np1[x] == np0[x]);
                }
                assert forall|y: int, j: int| 0 <= y < v + 1 && 0 <= j < grammar_of(np@)[y].len()
                    implies factored_body(g[y], nv as nat, grammar_of(np@), #[trigger] grammar_of(np@)[y][j]) by {
                    let b = gn[y][j];
                    if y < v {
                        assert(gn[y] == grammar_of(np0)[y]);
                        assert(factored_body(g[y], nv as nat, grammar_of(np0), grammar_of(np0)[y][j]));
                        if !g[y].contains(b) {
                            let x = b[1]->VariableIndex_0 as int;
                            assert(gn[x] == grammar_of(np1)[x]);
                            assert(grammar_of(np1)[x] == grammar_of(np0)[x]);
                        }
                    } else {
                        assert(gn[y][j] == row@[j]@);
                        assert(factored_body(self.productions@[v as int]@.map_values(|b: Vec<SymbolIndex>| b@), np0.len() as nat, grammar_of(np1), row@[j]@));
                        assert(self.productions@[v as int]@.map_values(|b: Vec<SymbolIndex>| b@) == g[y]);
                        if !g[y].contains(b) {
                            let x = b[1]->VariableIndex_0 as int;
                            assert(gn[x] == grammar_of(np1)[x]);
                        }
                    }
                }
                assert forall|y: int, i: int| 0 <= y < v + 1 && 0 <= i < g[y].len()
                    implies #[trigger] covered(grammar_of(np@)[y], grammar_of(np@), nv as nat, g[y][i]) by {
                    let b = g[y][i];
                    if y < v {
                        assert(gn[y] == grammar_of(np0)[y]);
                        assert(covered(grammar_of(np0)[y], grammar_of(np0), nv as nat, g[y][i]));
                        if !gn[y].contains(b) {
                            let x = choose|x: int| nv <= x < grammar_of(np0).len() && #[trigger] grammar_of(np0)[y].contains(head_then(b[0], x))
                                && grammar_of(np0)[x].contains(b.subrange(1, b.len() as int));
                            assert(gn[x] == grammar_of(np1)[x]);
                            assert(grammar_of(np1)[x] == grammar_of(np0)[x]);
                            assert(gn[y].contains(head_then(b[0], x)));
                        }
                    } else {
                        assert(self.productions@[v as int]@[i]@ == b);
                        assert(covered(views(row@), grammar_of(np1), np0.len() as nat, b));
                        assert(views(row@) == gn[y]);
                        if !gn[y].contains(b) {
                            let x = choose|x: int| np0.len() <= x < grammar_of(np1).len() && #[trigger] views(row@).contains(head_then(b[0], x))
                                && grammar_of(np1)[x].contains(b.subrange(1, b.len() as int));
                            assert(gn[x] == grammar_of(np1)[x]);
                            assert(gn[y].contains(head_then(b[0], x)));
                        }
                    }
                }
                assert forall|y: int| v + 1 <= y < nv implies (#[trigger] np@[y])@.len() == 0 by {
                    assert(np@[y] == np0[y]);
                }
            }
            v = v + 1;
        }
        let added = np.len() > nv;
        let ghost pf = np@;
        let r = CFG::new(Some(self.terminal_map.clone()), clone_terminals(&self.terminals), self.start_symbol, np);
        proof {
            let rg = r.g();
            assert(rg == grammar_of(pf));
            assert forall|x: int, j: int, k: int| 0 <= x < rg.len() && 0 <= j < rg[x].len() && 0 <= k < rg[x][j].len()
                implies symbol_in(rg, nt, #[trigger] rg[x][j][k]) by {
                assert(bodies_in_range(rg[x], pf.len() as nat, nt));
            }
            assert(factoring(g, rg));
            lemma_factoring_language(*self, r);
        }
        (r, added)
    }
}

} // verus!
