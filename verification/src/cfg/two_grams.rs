//! Sharing pairs of adjacent symbols that several long bodies contain: the
//! most frequent pair is replaced by a variable whose only body is that pair.
use crate::cfg::cfg::{clone_terminals, generates, grammar_of, grammar_ok, symbol_in, terminal_names, SymbolIndex, CFG};
use crate::collections::TwoGramMap;
use vstd::prelude::*;

verus! {

/// The number of positions below `n` at which body `b` has the pair `p`.
pub open spec fn pairs_in(b: Seq<SymbolIndex>, p: (SymbolIndex, SymbolIndex), n: int) -> nat
    decreases n,
{
    if n <= 0 {
        0
    } else {
        pairs_in(b, p, n - 1) + if (b[n - 1], b[n]) == p { 1nat } else { 0nat }
    }
}

/// The number of positions at which body `b` has the pair `p`, counted only
/// in bodies of three symbols or more.
pub open spec fn body_pairs(b: Seq<SymbolIndex>, p: (SymbolIndex, SymbolIndex)) -> nat {
    if b.len() < 3 {
        0
    } else {
        pairs_in(b, p, b.len() - 1)
    }
}

/// The number of occurrences of the pair `p` in the first `n` bodies of `bs`.
pub open spec fn row_pairs(bs: Seq<Seq<SymbolIndex>>, p: (SymbolIndex, SymbolIndex), n: int) -> nat
    decreases n,
{
    if n <= 0 {
        0
    } else {
        row_pairs(bs, p, n - 1) + body_pairs(bs[n - 1], p)
    }
}

/// The number of occurrences of the pair `p` in the bodies of the first `n`
/// variables of `g`.
pub open spec fn grammar_pairs(g: Seq<Seq<Seq<SymbolIndex>>>, p: (SymbolIndex, SymbolIndex), n: int) -> nat
    decreases n,
{
    if n <= 0 {
        0
    } else {
        grammar_pairs(g, p, n - 1) + row_pairs(g[n - 1], p, g[n - 1].len() as int)
    }
}

/// The number of occurrences of the pair `p` in the long bodies of `g`.
pub open spec fn pair_count(g: Seq<Seq<Seq<SymbolIndex>>>, p: (SymbolIndex, SymbolIndex)) -> nat {
    grammar_pairs(g, p, g.len() as int)
}

/// The occurrences of `p` before position `(h, j, k)`.
pub open spec fn pairs_before(g: Seq<Seq<Seq<SymbolIndex>>>, p: (SymbolIndex, SymbolIndex), h: int, j: int, k: int) -> nat {
    grammar_pairs(g, p, h) + row_pairs(g[h], p, j) + if g[h][j].len() >= 3 { pairs_in(g[h][j], p, k) } else { 0 }
}

/// The length of the list of `p` in `m`, or zero where `p` has none.
pub open spec fn listed(m: Map<(SymbolIndex, SymbolIndex), Seq<usize>>, p: (SymbolIndex, SymbolIndex)) -> nat {
    if m.contains_key(p) {
        m[p].len()
    } else {
        0
    }
}

/// Body `b` with the pair `p` replaced by variable `x`, from left to right,
/// without overlaps.
pub open spec fn replaced(b: Seq<SymbolIndex>, p: (SymbolIndex, SymbolIndex), x: usize) -> Seq<SymbolIndex>
    decreases b.len(),
{
    if b.len() < 2 {
        b
    } else if (b[0], b[1]) == p {
        seq![SymbolIndex::VariableIndex(x)] + replaced(b.subrange(2, b.len() as int), p, x)
    } else {
        seq![b[0]] + replaced(b.subrange(1, b.len() as int), p, x)
    }
}

/// The bodies `bs` with the pair replaced in those of three symbols or more.
pub open spec fn rewritten(bs: Seq<Seq<SymbolIndex>>, p: (SymbolIndex, SymbolIndex), x: usize) -> Seq<Seq<SymbolIndex>> {
    bs.map_values(|b: Seq<SymbolIndex>| if b.len() < 3 { b } else { replaced(b, p, x) })
}

/// Whether the bodies of a variable are exactly the pair `p`.
pub open spec fn pair_rule(bs: Seq<Seq<SymbolIndex>>, p: (SymbolIndex, SymbolIndex)) -> bool {
    bs == seq![seq![p.0, p.1]]
}

/// Whether `x` is the variable that stands for the pair `p`: the first one
/// whose bodies are exactly the pair, or a new one after the others.
pub open spec fn pair_variable(g: Seq<Seq<Seq<SymbolIndex>>>, p: (SymbolIndex, SymbolIndex), x: int) -> bool {
    &&& forall|v: int| 0 <= v < x && v < g.len() ==> !pair_rule(#[trigger] g[v], p)
    &&& x == g.len() || (0 <= x < g.len() && pair_rule(g[x], p))
}

/// `g` with the pair `p` shared through variable `x`.
pub open spec fn shared(g: Seq<Seq<Seq<SymbolIndex>>>, p: (SymbolIndex, SymbolIndex), x: usize) -> Seq<Seq<Seq<SymbolIndex>>> {
    let rows = g.map_values(|bs: Seq<Seq<SymbolIndex>>| rewritten(bs, p, x));
    if x == g.len() {
        rows.push(seq![seq![p.0, p.1]])
    } else {
        rows
    }
}

/// Whether the pair `p` is one that occurs most often, and at least twice.
pub open spec fn most_frequent(g: Seq<Seq<Seq<SymbolIndex>>>, p: (SymbolIndex, SymbolIndex)) -> bool {
    &&& pair_count(g, p) >= 2
    &&& forall|q: (SymbolIndex, SymbolIndex)| #[trigger] pair_count(g, q) <= pair_count(g, p)
}

/// Body `b` with the pair `p` replaced by variable `x`.
fn replace_pair(b: &Vec<SymbolIndex>, p: (SymbolIndex, SymbolIndex), x: usize) -> (r: Vec<SymbolIndex>)
    ensures
        r@ == replaced(b@, p, x),
{
    let mut r: Vec<SymbolIndex> = Vec::new();
    let mut j: usize = 0;
    let len = b.len();
    assert(b@.subrange(0, len as int) =~= b@);
    assert(r@ + replaced(b@.subrange(0, len as int), p, x) =~= replaced(b@, p, x));
    while len - j > 1
        invariant
            len == b@.len(),
            j <= len,
            r@ + replaced(b@.subrange(j as int, len as int), p, x) == replaced(b@, p, x),
        decreases len - j,
    {
        let ghost rest = b@.subrange(j as int, len as int);
        if b[j] == p.0 && b[j + 1] == p.1 {
            proof {
                assert(rest.subrange(2, rest.len() as int) =~= b@.subrange(j + 2, len as int));
                assert(r@.push(SymbolIndex::VariableIndex(x)) + replaced(b@.subrange(j + 2, len as int), p, x) =~= r@ + replaced(rest, p, x));
            }
            r.push(SymbolIndex::VariableIndex(x));
            j = j + 2;
        } else {
            proof {
                assert(rest.subrange(1, rest.len() as int) =~= b@.subrange(j + 1, len as int));
                assert((rest[0], rest[1]) != p);
                assert(r@.push(b@[j as int]) + replaced(b@.subrange(j + 1, len as int), p, x) =~= r@ + replaced(rest, p, x));
            }
            r.push(b[j]);
            j = j + 1;
        }
    }
    if j < len {
        proof {
            assert(replaced(b@.subrange(j as int, len as int), p, x) == b@.subrange(j as int, len as int));
            assert(b@.subrange(j as int, len as int) =~= seq![b@[j as int]]);
        }
        r.push(b[j]);
        assert(r@ == replaced(b@, p, x));
    } else {
        assert(replaced(b@.subrange(j as int, len as int), p, x) =~= Seq::<SymbolIndex>::empty());
        assert(r@ =~= replaced(b@, p, x));
    }
    r
}

/// Every symbol of a body with a pair replaced comes from the body or is the
/// variable put in.
pub proof fn lemma_replaced_symbols(b: Seq<SymbolIndex>, p: (SymbolIndex, SymbolIndex), x: usize, ok: spec_fn(SymbolIndex) -> bool)
    requires
        forall|k: int| 0 <= k < b.len() ==> ok(#[trigger] b[k]),
        ok(SymbolIndex::VariableIndex(x)),
    ensures
        forall|k: int| 0 <= k < replaced(b, p, x).len() ==> ok(#[trigger] replaced(b, p, x)[k]),
    decreases b.len(),
{
    if b.len() >= 2 {
        if (b[0], b[1]) == p {
            let rest = b.subrange(2, b.len() as int);
            assert forall|k: int| 0 <= k < rest.len() implies ok(#[trigger] rest[k]) by {
                assert(rest[k] == b[k + 2]);
            }
            lemma_replaced_symbols(rest, p, x, ok);
            let r = seq![SymbolIndex::VariableIndex(x)] + replaced(rest, p, x);
            assert forall|k: int| 0 <= k < r.len() implies ok(#[trigger] r[k]) by {
                if k > 0 {
                    assert(r[k] == replaced(rest, p, x)[k - 1]);
                }
            }
        } else {
            let rest = b.subrange(1, b.len() as int);
            assert forall|k: int| 0 <= k < rest.len() implies ok(#[trigger] rest[k]) by {
                assert(rest[k] == b[k + 1]);
            }
            lemma_replaced_symbols(rest, p, x, ok);
            let r = seq![b[0]] + replaced(rest, p, x);
            assert forall|k: int| 0 <= k < r.len() implies ok(#[trigger] r[k]) by {
                if k > 0 {
                    assert(r[k] == replaced(rest, p, x)[k - 1]);
                }
            }
        }
    }
}

/// A pair counted in a body occurs in it.
pub proof fn lemma_pairs_in_occurs(b: Seq<SymbolIndex>, p: (SymbolIndex, SymbolIndex), n: int)
    requires
        pairs_in(b, p, n) > 0,
    ensures
        exists|i: int| 0 <= i < n && (#[trigger] b[i], b[i + 1]) == p,
    decreases n,
{
    if (b[n - 1], b[n]) != p {
        lemma_pairs_in_occurs(b, p, n - 1);
    }
}

/// A pair counted in some bodies occurs in one of them.
pub proof fn lemma_row_pairs_occurs(bs: Seq<Seq<SymbolIndex>>, p: (SymbolIndex, SymbolIndex), n: int)
    requires
        row_pairs(bs, p, n) > 0,
    ensures
        exists|j: int| 0 <= j < n && #[trigger] body_pairs(bs[j], p) > 0,
    decreases n,
{
    if body_pairs(bs[n - 1], p) == 0 {
        lemma_row_pairs_occurs(bs, p, n - 1);
    }
}

/// A pair counted in a grammar occurs in a long body of it.
pub proof fn lemma_pair_occurs(g: Seq<Seq<Seq<SymbolIndex>>>, p: (SymbolIndex, SymbolIndex), n: int)
    requires
        grammar_pairs(g, p, n) > 0,
        n <= g.len(),
    ensures
        exists|v: int, j: int, i: int|
            0 <= v < n && 0 <= j < g[v].len() && g[v][j].len() >= 3 && 0 <= i && i + 1 < g[v][j].len() && (#[trigger] g[v][j][i], g[v][j][i + 1]) == p,
    decreases n,
{
    if row_pairs(g[n - 1], p, g[n - 1].len() as int) == 0 {
        lemma_pair_occurs(g, p, n - 1);
        let (v, j, i) = choose|v: int, j: int, i: int|
            0 <= v < n - 1 && 0 <= j < g[v].len() && g[v][j].len() >= 3 && 0 <= i && i + 1 < g[v][j].len() && (#[trigger] g[v][j][i], g[v][j][i + 1]) == p;
        assert(0 <= v < n);
    } else {
        lemma_row_pairs_occurs(g[n - 1], p, g[n - 1].len() as int);
        let j = choose|j: int| 0 <= j < g[n - 1].len() && #[trigger] body_pairs(g[n - 1][j], p) > 0;
        let b = g[n - 1][j];
        lemma_pairs_in_occurs(b, p, b.len() - 1);
        let i = choose|i: int| 0 <= i < b.len() - 1 && (#[trigger] b[i], b[i + 1]) == p;
        assert((g[n - 1][j][i], g[n - 1][j][i + 1]) == p);
    }
}

/// One pass of sharing: among the pairs of adjacent symbols in bodies of
/// three symbols or more, one that occurs most often is taken; where it
/// occurs at least twice, every such body has it replaced, from left to
/// right, by the first variable whose bodies are exactly the pair, or by a
/// new such variable. Returns whether a pair was replaced.
pub fn eliminate_shared_2_grams_single_pass(productions: Vec<Vec<Vec<SymbolIndex>>>) -> (r: (Vec<Vec<Vec<SymbolIndex>>>, bool))
    ensures
        r.0@.len() >= productions@.len(),
        (forall|q: (SymbolIndex, SymbolIndex)| #[trigger] pair_count(grammar_of(productions@), q) <= 1) <==> !r.1,
        !r.1 ==> grammar_of(r.0@) == grammar_of(productions@),
        r.1 ==> exists|p: (SymbolIndex, SymbolIndex), x: usize|
            #[trigger] most_frequent(grammar_of(productions@), p) && pair_variable(grammar_of(productions@), p, x as int)
                && grammar_of(r.0@) == #[trigger] shared(grammar_of(productions@), p, x),
        forall|nt: nat| #[trigger] grammar_ok(grammar_of(productions@), nt) ==> grammar_ok(grammar_of(r.0@), nt),
        (exists|nt: nat| grammar_ok(grammar_of(productions@), nt)) ==> forall|v: usize, u: Seq<usize>|
            v < productions@.len() ==> (#[trigger] generates(grammar_of(r.0@), SymbolIndex::VariableIndex(v), u)
                <==> generates(grammar_of(productions@), SymbolIndex::VariableIndex(v), u)),
{
    let ghost g = grammar_of(productions@);
    let r = share_most_frequent_pair(productions);
    proof {
        if r.1 {
            let (p, x) = choose|p: (SymbolIndex, SymbolIndex), x: usize|
                #[trigger] most_frequent(g, p) && pair_variable(g, p, x as int) && grammar_of(r.0@) == #[trigger] shared(g, p, x);
            if exists|nt: nat| grammar_ok(g, nt) {
                let nt = choose|nt: nat| grammar_ok(g, nt);
                assert forall|v: usize, u: Seq<usize>|
                    v < g.len() implies (#[trigger] generates(grammar_of(r.0@), SymbolIndex::VariableIndex(v), u) <==> generates(g, SymbolIndex::VariableIndex(v), u)) by {
                    crate::cfg::two_gram_words::lemma_shared_words(g, nt, p, x, v, u);
                }
            }
        }
    }
    r
}

/// The pass of sharing itself.
fn share_most_frequent_pair(productions: Vec<Vec<Vec<SymbolIndex>>>) -> (r: (Vec<Vec<Vec<SymbolIndex>>>, bool))
    ensures
        r.0@.len() >= productions@.len(),
        (forall|q: (SymbolIndex, SymbolIndex)| #[trigger] pair_count(grammar_of(productions@), q) <= 1) <==> !r.1,
        !r.1 ==> grammar_of(r.0@) == grammar_of(productions@),
        r.1 ==> exists|p: (SymbolIndex, SymbolIndex), x: usize|
            #[trigger] most_frequent(grammar_of(productions@), p) && pair_variable(grammar_of(productions@), p, x as int)
                && grammar_of(r.0@) == #[trigger] shared(grammar_of(productions@), p, x),
        forall|nt: nat| #[trigger] grammar_ok(grammar_of(productions@), nt) ==> grammar_ok(grammar_of(r.0@), nt),
{
    let ghost g = grammar_of(productions@);
    let mut productions = productions;
    let n = productions.len();
    // Every pair of adjacent symbols of a long body, with the variable of the body.
    let mut all_two_grams = TwoGramMap::new();
    let mut h: usize = 0;
    while h < n
        invariant
            g == grammar_of(productions@),
            n == g.len(),
            h <= n,
            forall|q: (SymbolIndex, SymbolIndex)| #[trigger] listed(all_two_grams@, q) == grammar_pairs(g, q, h as int),
        decreases n - h,
    {
        let rows = &productions[h];
        let mut j: usize = 0;
        while j < rows.len()
            invariant
                g == grammar_of(productions@),
                n == g.len(),
                h < n,
                rows@ == productions@[h as int]@,
                j <= rows@.len(),
                forall|q: (SymbolIndex, SymbolIndex)| #[trigger] listed(all_two_grams@, q) == grammar_pairs(g, q, h as int) + row_pairs(g[h as int], q, j as int),
            decreases rows@.len() - j,
        {
            let production = &rows[j];
            assert(production@ == g[h as int][j as int]);
            if production.len() >= 3 {
                let mut i: usize = 0;
                while production.len() - i > 1
                    invariant
                        g == grammar_of(productions@),
                        h < n,
                        j < g[h as int].len(),
                        production@ == g[h as int][j as int],
                        production@.len() >= 3,
                        i < production@.len(),
                        forall|q: (SymbolIndex, SymbolIndex)| #[trigger] listed(all_two_grams@, q)
                            == grammar_pairs(g, q, h as int) + row_pairs(g[h as int], q, j as int) + pairs_in(production@, q, i as int),
                    decreases production@.len() - i,
                {
                    let key = (production[i], production[i + 1]);
                    let ghost m0 = all_two_grams@;
                    all_two_grams.push(key, h);
                    proof {
                        assert forall|q: (SymbolIndex, SymbolIndex)| #[trigger] listed(all_two_grams@, q)
                            == grammar_pairs(g, q, h as int) + row_pairs(g[h as int], q, j as int) + pairs_in(production@, q, i + 1) by {
                            assert(listed(m0, q) == grammar_pairs(g, q, h as int) + row_pairs(g[h as int], q, j as int) + pairs_in(production@, q, i as int));
                            assert(pairs_in(production@, q, i + 1) == pairs_in(production@, q, i as int) + if (production@[i as int], production@[i + 1]) == q { 1nat } else { 0nat });
                            if q == key {
                                assert(listed(all_two_grams@, q) == listed(m0, q) + 1);
                            } else {
                                assert(listed(all_two_grams@, q) == listed(m0, q));
                            }
                        }
                    }
                    i = i + 1;
                }
            }
            proof {
                assert forall|q: (SymbolIndex, SymbolIndex)| #[trigger] listed(all_two_grams@, q)
                    == grammar_pairs(g, q, h as int) + row_pairs(g[h as int], q, j + 1) by {
                    assert(row_pairs(g[h as int], q, j + 1) == row_pairs(g[h as int], q, j as int) + body_pairs(g[h as int][j as int], q));
                }
            }
            j = j + 1;
        }
        proof {
            assert forall|q: (SymbolIndex, SymbolIndex)| #[trigger] listed(all_two_grams@, q) == grammar_pairs(g, q, h + 1) by {
                assert(grammar_pairs(g, q, h + 1) == grammar_pairs(g, q, h as int) + row_pairs(g[h as int], q, g[h as int].len() as int));
            }
        }
        h = h + 1;
    }
    if all_two_grams.is_empty() {
        proof {
            assert forall|q: (SymbolIndex, SymbolIndex)| #[trigger] pair_count(g, q) <= 1 by {
                assert(!all_two_grams@.dom().contains(q));
                assert(listed(all_two_grams@, q) == 0);
            }
        }
        return (productions, false);
    }
    // A pair that occurs most often: the last such pair in the order of the map.
    let entries = all_two_grams.entries();
    proof {
        if forall|k: (SymbolIndex, SymbolIndex)| !#[trigger] all_two_grams@.dom().contains(k) {
            assert(all_two_grams@.dom() =~= Set::<(SymbolIndex, SymbolIndex)>::empty());
        }
        let k0 = choose|k: (SymbolIndex, SymbolIndex)| #[trigger] all_two_grams@.dom().contains(k);
        assert(all_two_grams@.contains_key(k0));
    }
    let mut best: usize = 0;
    let mut best_len: usize = 0;
    let mut t: usize = 0;
    while t < entries.len()
        invariant
            t <= entries@.len(),
            entries@.len() > 0,
            forall|t2: int| 0 <= t2 < t ==> (#[trigger] entries@[t2]).1@.len() <= best_len,
            best < entries@.len(),
            t == 0 ==> best_len == 0,
            t > 0 ==> best_len == entries@[best as int].1@.len(),
        decreases entries@.len() - t,
    {
        let len_t = entries[t].1.len();
        assert(len_t == entries@[t as int].1@.len());
        if len_t >= best_len {
            best = t;
            best_len = len_t;
        }
        t = t + 1;
    }
    let pair = entries[best].0;
    proof {
        assert(entries@[best as int].0 == pair);
        assert(all_two_grams@.contains_key(entries@[best as int].0));
        assert(all_two_grams@.contains_key(pair) && entries@[best as int].1@ == all_two_grams@[pair]);
        assert(listed(all_two_grams@, pair) == best_len);
        assert forall|q: (SymbolIndex, SymbolIndex)| #[trigger] pair_count(g, q) <= pair_count(g, pair) by {
            assert(listed(all_two_grams@, q) == pair_count(g, q));
            if all_two_grams@.contains_key(q) {
                let i = choose|i: int| 0 <= i < entries@.len() && (#[trigger] entries@[i]).0 == q;
                assert(entries@[i].1@ == all_two_grams@[q]);
            }
        }
    }
    if best_len <= 1 {
        return (productions, false);
    }
    proof {
        assert(pair_count(g, pair) >= 2);
        assert(most_frequent(g, pair));
    }
    // The first variable whose bodies are exactly the pair, if any.
    let mut existing: Option<usize> = None;
    let mut v: usize = 0;
    while v < n
        invariant_except_break
            existing is None,
        invariant
            g == grammar_of(productions@),
            n == g.len(),
            v <= n,
            forall|v2: int| 0 <= v2 < v ==> !pair_rule(#[trigger] g[v2], pair),
            most_frequent(g, pair),
        ensures
            most_frequent(g, pair),
            forall|v2: int| 0 <= v2 < v ==> !pair_rule(#[trigger] g[v2], pair),
            existing is None ==> v == n,
            existing matches Some(e) ==> e == v && v < n && pair_rule(g[v as int], pair),
        decreases n - v,
    {
        let rules = &productions[v];
        if rules.len() == 1 && rules[0].len() == 2 && rules[0][0] == pair.0 && rules[0][1] == pair.1 {
            proof {
                assert(rules@[0]@ =~= seq![pair.0, pair.1]);
                assert(g[v as int][0] == rules@[0]@);
                assert(g[v as int] =~= seq![seq![pair.0, pair.1]]);
            }
            existing = Some(v);
            break;
        }
        proof {
            if pair_rule(g[v as int], pair) {
                assert(g[v as int].len() == 1);
                assert(g[v as int][0] == seq![pair.0, pair.1]);
                assert(rules@[0]@ == g[v as int][0]);
            }
        }
        v = v + 1;
    }
    let x = match existing {
        Some(e) => e,
        None => n,
    };
    assert(pair_variable(g, pair, x as int));
    // Every long body has the pair replaced.
    let mut w: usize = 0;
    while w < n
        invariant
            n == g.len(),
            productions@.len() == n,
            w <= n,
            forall|w2: int| 0 <= w2 < w ==> #[trigger] grammar_of(productions@)[w2] == rewritten(g[w2], pair, x),
            forall|w2: int| w <= w2 < n ==> #[trigger] grammar_of(productions@)[w2] == g[w2],
            most_frequent(g, pair),
            pair_variable(g, pair, x as int),
        decreases n - w,
    {
        let ghost before = productions@;
        let mut new_rules: Vec<Vec<SymbolIndex>> = Vec::new();
        let mut j: usize = 0;
        while j < productions[w].len()
            invariant
                productions@ == before,
                w < n,
                n == g.len(),
                before.len() == n,
                grammar_of(before)[w as int] == g[w as int],
                j <= g[w as int].len(),
                new_rules@.len() == j,
                forall|j2: int| 0 <= j2 < j ==> (#[trigger] new_rules@[j2])@ == rewritten(g[w as int], pair, x)[j2],
            decreases g[w as int].len() - j,
        {
            let rule = &productions[w][j];
            assert(rule@ == g[w as int][j as int]);
            if rule.len() < 3 {
                new_rules.push(crate::cfg::cfg::clone_body(rule));
            } else {
                new_rules.push(replace_pair(rule, pair, x));
            }
            j = j + 1;
        }
        productions.set(w, new_rules);
        proof {
            assert forall|w2: int| 0 <= w2 < w + 1 implies #[trigger] grammar_of(productions@)[w2] == rewritten(g[w2], pair, x) by {
                if w2 < w {
                    assert(productions@[w2] == before[w2]);
                    assert(grammar_of(before)[w2] == rewritten(g[w2], pair, x));
                } else {
                    assert(grammar_of(productions@)[w2] =~= rewritten(g[w2], pair, x));
                }
            }
            assert forall|w2: int| w + 1 <= w2 < n implies #[trigger] grammar_of(productions@)[w2] == g[w2] by {
                assert(productions@[w2] == before[w2]);
                assert(grammar_of(before)[w2] == g[w2]);
            }
        }
        w = w + 1;
    }
    let ghost before_push = productions@;
    if existing.is_none() {
        let mut row: Vec<Vec<SymbolIndex>> = Vec::new();
        row.push(crate::cfg::intersection::body_of_two(pair.0, pair.1));
        productions.push(row);
    }
    proof {
        let g2 = grammar_of(productions@);
        let sh = shared(g, pair, x);
        assert forall|w2: int| 0 <= w2 < n implies #[trigger] g2[w2] == sh[w2] by {
            assert(productions@[w2] == before_push[w2]);
            assert(grammar_of(before_push)[w2] == rewritten(g[w2], pair, x));
            assert(g2[w2] == rewritten(g[w2], pair, x));
        }
        if existing is None {
            assert(x == n);
            assert(g2.len() == n + 1);
            assert(sh.len() == n + 1);
            assert(g2[n as int] =~= seq![seq![pair.0, pair.1]]);
        } else {
            assert(x < n);
            assert(g2.len() == n);
            assert(sh.len() == n);
        }
        assert(g2 =~= sh);
        assert(most_frequent(g, pair));
        assert(pair_variable(g, pair, x as int));
        assert forall|nt: nat| #[trigger] grammar_ok(g, nt) implies grammar_ok(g2, nt) by {
            assert forall|v2: int, j2: int, k2: int| 0 <= v2 < g2.len() && 0 <= j2 < g2[v2].len() && 0 <= k2 < g2[v2][j2].len()
                implies symbol_in(g2, nt, #[trigger] g2[v2][j2][k2]) by {
                if v2 < n {
                    let b = g[v2][j2];
                    let ok = |s: SymbolIndex| symbol_in(g2, nt, s);
                    assert forall|k: int| 0 <= k < b.len() implies ok(#[trigger] b[k]) by {
                        assert(symbol_in(g, nt, g[v2][j2][k]));
                    }
                    if b.len() >= 3 {
                        lemma_replaced_symbols(b, pair, x, ok);
                        assert(g2[v2][j2] == replaced(b, pair, x));
                    } else {
                        assert(g2[v2][j2] == b);
                    }
                } else {
                    assert(g2[v2][j2] == seq![pair.0, pair.1]);
                    lemma_pair_occurs(g, pair, g.len() as int);
                    let (v, j, i) = choose|v: int, j: int, i: int|
                        0 <= v < g.len() && 0 <= j < g[v].len() && g[v][j].len() >= 3 && 0 <= i && i + 1 < g[v][j].len() && (#[trigger] g[v][j][i], g[v][j][i + 1]) == pair;
                    assert(symbol_in(g, nt, g[v][j][i]));
                    assert(symbol_in(g, nt, g[v][j][i + 1]));
                }
            }
        }
    }
    (productions, true)
}

/// The length of a body counted when it has three symbols or more.
pub open spec fn body_size(b: Seq<SymbolIndex>) -> nat {
    if b.len() >= 3 {
        b.len()
    } else {
        0
    }
}

/// The total length of the first `n` bodies of `bs` that have three symbols or more.
pub open spec fn row_size(bs: Seq<Seq<SymbolIndex>>, n: int) -> nat
    decreases n,
{
    if n <= 0 {
        0
    } else {
        row_size(bs, n - 1) + body_size(bs[n - 1])
    }
}

/// The total length of the bodies of three symbols or more of the first `n`
/// variables of `g`.
pub open spec fn grammar_size(g: Seq<Seq<Seq<SymbolIndex>>>, n: int) -> nat
    decreases n,
{
    if n <= 0 {
        0
    } else {
        grammar_size(g, n - 1) + row_size(g[n - 1], g[n - 1].len() as int)
    }
}

/// Replacing a pair never lengthens a body, and shortens one that has it.
pub proof fn lemma_replaced_len(b: Seq<SymbolIndex>, p: (SymbolIndex, SymbolIndex), x: usize)
    ensures
        replaced(b, p, x).len() <= b.len(),
        (exists|i: int| 0 <= i && i + 1 < b.len() && (#[trigger] b[i], b[i + 1]) == p) ==> replaced(b, p, x).len() < b.len(),
    decreases b.len(),
{
    if b.len() >= 2 {
        if (b[0], b[1]) == p {
            lemma_replaced_len(b.subrange(2, b.len() as int), p, x);
        } else {
            let rest = b.subrange(1, b.len() as int);
            lemma_replaced_len(rest, p, x);
            if exists|i: int| 0 <= i && i + 1 < b.len() && (#[trigger] b[i], b[i + 1]) == p {
                let i = choose|i: int| 0 <= i && i + 1 < b.len() && (#[trigger] b[i], b[i + 1]) == p;
                assert(i >= 1);
                assert((rest[i - 1], rest[i]) == p);
            }
        }
    }
}

/// Rewriting the bodies of a variable never increases their counted length,
/// and decreases it where a long body has the pair.
pub proof fn lemma_row_size_rewritten(bs: Seq<Seq<SymbolIndex>>, p: (SymbolIndex, SymbolIndex), x: usize, n: int)
    requires
        0 <= n <= bs.len(),
    ensures
        row_size(rewritten(bs, p, x), n) <= row_size(bs, n),
        (exists|j: int, i: int| 0 <= j < n && bs[j].len() >= 3 && 0 <= i && i + 1 < bs[j].len() && (#[trigger] bs[j][i], bs[j][i + 1]) == p)
            ==> row_size(rewritten(bs, p, x), n) < row_size(bs, n),
    decreases n,
{
    if n > 0 {
        lemma_row_size_rewritten(bs, p, x, n - 1);
        let b = bs[n - 1];
        lemma_replaced_len(b, p, x);
        let rw = rewritten(bs, p, x);
        assert(rw[n - 1] == if b.len() < 3 { b } else { replaced(b, p, x) });
        if exists|j: int, i: int| 0 <= j < n && bs[j].len() >= 3 && 0 <= i && i + 1 < bs[j].len() && (#[trigger] bs[j][i], bs[j][i + 1]) == p {
            let (j, i) = choose|j: int, i: int| 0 <= j < n && bs[j].len() >= 3 && 0 <= i && i + 1 < bs[j].len() && (#[trigger] bs[j][i], bs[j][i + 1]) == p;
            if j == n - 1 {
                assert((b[i], b[i + 1]) == p);
            } else {
                assert((bs[j][i], bs[j][i + 1]) == p);
            }
        }
    }
}

/// Sharing a pair that occurs decreases the counted length of the grammar.
pub proof fn lemma_grammar_size_shared(g: Seq<Seq<Seq<SymbolIndex>>>, p: (SymbolIndex, SymbolIndex), x: usize, n: int)
    requires
        0 <= n <= g.len(),
    ensures
        grammar_size(shared(g, p, x), n) <= grammar_size(g, n),
        grammar_pairs(g, p, n) > 0 ==> grammar_size(shared(g, p, x), n) < grammar_size(g, n),
    decreases n,
{
    if n > 0 {
        lemma_grammar_size_shared(g, p, x, n - 1);
        let sh = shared(g, p, x);
        assert(sh[n - 1] == rewritten(g[n - 1], p, x));
        lemma_row_size_rewritten(g[n - 1], p, x, g[n - 1].len() as int);
        if grammar_pairs(g, p, n) > 0 && grammar_pairs(g, p, n - 1) == 0 {
            lemma_pair_occurs(g, p, n);
            let (v, j, i) = choose|v: int, j: int, i: int|
                0 <= v < n && 0 <= j < g[v].len() && g[v][j].len() >= 3 && 0 <= i && i + 1 < g[v][j].len() && (#[trigger] g[v][j][i], g[v][j][i + 1]) == p;
            if v < n - 1 {
                lemma_pair_occurs_prefix(g, p, n - 1, v, j, i);
            } else {
                assert((g[n - 1][j][i], g[n - 1][j][i + 1]) == p);
            }
        }
    }
}

/// A pair occurring in a long body of one of the first `n` variables is counted.
pub proof fn lemma_pair_occurs_prefix(g: Seq<Seq<Seq<SymbolIndex>>>, p: (SymbolIndex, SymbolIndex), n: int, v: int, j: int, i: int)
    requires
        0 <= v < n <= g.len(),
        0 <= j < g[v].len(),
        g[v][j].len() >= 3,
        0 <= i,
        i + 1 < g[v][j].len(),
        (g[v][j][i], g[v][j][i + 1]) == p,
    ensures
        grammar_pairs(g, p, n) > 0,
    decreases n,
{
    if v < n - 1 {
        lemma_pair_occurs_prefix(g, p, n - 1, v, j, i);
    } else {
        lemma_row_pairs_positive(g[v], p, g[v].len() as int, j, i);
    }
}

/// A pair occurring in one of the first `n` long bodies is counted.
pub proof fn lemma_row_pairs_positive(bs: Seq<Seq<SymbolIndex>>, p: (SymbolIndex, SymbolIndex), n: int, j: int, i: int)
    requires
        0 <= j < n <= bs.len(),
        bs[j].len() >= 3,
        0 <= i,
        i + 1 < bs[j].len(),
        (bs[j][i], bs[j][i + 1]) == p,
    ensures
        row_pairs(bs, p, n) > 0,
    decreases n,
{
    if j < n - 1 {
        lemma_row_pairs_positive(bs, p, n - 1, j, i);
    } else {
        lemma_pairs_in_positive(bs[j], p, bs[j].len() - 1, i);
    }
}

/// A pair at a position below `n` is counted.
pub proof fn lemma_pairs_in_positive(b: Seq<SymbolIndex>, p: (SymbolIndex, SymbolIndex), n: int, i: int)
    requires
        0 <= i < n,
        (b[i], b[i + 1]) == p,
    ensures
        pairs_in(b, p, n) > 0,
    decreases n,
{
    if i < n - 1 {
        lemma_pairs_in_positive(b, p, n - 1, i);
    }
}

impl CFG {
    /// Shares pairs of adjacent symbols until no pair occurs twice in the
    /// bodies of three symbols or more.
    pub fn eliminate_shared_2_grams(self) -> (r: Self)
        requires
            self.wf(),
        ensures
            r.wf(),
            r.terminals@ == self.terminals@,
            r.start_symbol == self.start_symbol,
            r.productions@.len() >= self.productions@.len(),
            forall|q: (SymbolIndex, SymbolIndex)| #[trigger] pair_count(r.g(), q) <= 1,
            forall|w: Seq<Seq<char>>| #[trigger] r.generates_word(w) == self.generates_word(w),
            r._is_cleaned is None,
            r._in_normal_form is None,
    {
        let ghost nt = self.nt();
        let mut productions = crate::cfg::cfg::clone_productions(&self.productions);
        let mut overall_changed = true;
        while overall_changed
            invariant
                nt == self.nt(),
                self.wf(),
                productions@.len() >= self.productions@.len(),
                grammar_ok(grammar_of(productions@), nt),
                !overall_changed ==> forall|q: (SymbolIndex, SymbolIndex)| #[trigger] pair_count(grammar_of(productions@), q) <= 1,
                forall|u: Seq<usize>| #[trigger] generates(grammar_of(productions@), SymbolIndex::VariableIndex(self.start_symbol), u)
                    == generates(self.g(), SymbolIndex::VariableIndex(self.start_symbol), u),
            decreases grammar_size(grammar_of(productions@), productions@.len() as int) + if overall_changed { 1nat } else { 0nat },
        {
            let ghost g0 = grammar_of(productions@);
            let (p2, c2) = eliminate_shared_2_grams_single_pass(productions);
            proof {
                assert(grammar_ok(g0, nt));
                if c2 {
                    let (p, x) = choose|p: (SymbolIndex, SymbolIndex), x: usize|
                        #[trigger] most_frequent(g0, p) && pair_variable(g0, p, x as int) && grammar_of(p2@) == #[trigger] shared(g0, p, x);
                    let sh = shared(g0, p, x);
                    lemma_grammar_size_shared(g0, p, x, g0.len() as int);
                    assert(pair_count(g0, p) >= 2);
                    assert(grammar_pairs(g0, p, g0.len() as int) > 0);
                    assert(grammar_size(sh, g0.len() as int) < grammar_size(g0, g0.len() as int));
                    assert(grammar_of(p2@) == sh);
                    assert(p2@.len() == sh.len());
                    if x == g0.len() {
                        assert(grammar_size(sh, sh.len() as int) == grammar_size(sh, g0.len() as int) + row_size(sh[g0.len() as int], 1));
                        assert(sh[g0.len() as int] == seq![seq![p.0, p.1]]);
                        assert(row_size(sh[g0.len() as int], 1) == 0) by {
                            assert(row_size(sh[g0.len() as int], 0) == 0);
                            assert(body_size(sh[g0.len() as int][0]) == 0);
                        }
                    }
                    assert(grammar_size(grammar_of(p2@), p2@.len() as int) < grammar_size(g0, g0.len() as int));
                }
            }
            productions = p2;
            overall_changed = c2;
        }
        let r = CFG::new(Some(self.terminal_map.clone()), clone_terminals(&self.terminals), self.start_symbol, productions);
        proof {
            assert forall|w: Seq<Seq<char>>| #[trigger] r.generates_word(w) == self.generates_word(w) by {
                if r.generates_word(w) {
                    let u = choose|u: Seq<usize>| #[trigger] generates(r.g(), SymbolIndex::VariableIndex(r.start_symbol), u)
                        && terminal_names(r.terminals@, u) == w;
                    assert(generates(self.g(), SymbolIndex::VariableIndex(self.start_symbol), u));
                }
                if self.generates_word(w) {
                    let u = choose|u: Seq<usize>| #[trigger] generates(self.g(), SymbolIndex::VariableIndex(self.start_symbol), u)
                        && terminal_names(self.terminals@, u) == w;
                    assert(generates(r.g(), SymbolIndex::VariableIndex(r.start_symbol), u));
                }
            }
        }
        r
    }
}

} // verus!
