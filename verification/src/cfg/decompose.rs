//! Splitting long production bodies into chains of bodies of two symbols,
//! sharing the chains of equal suffixes.
use crate::cfg::cfg::{
    binary_form, clone_body, clone_terminals, grammar_of, grammar_ok, insert_or_append, symbol_in, SymbolIndex, CFG,
};
use crate::cfg::transform::{long_bodies_variables, short_bodies};
use crate::collections::SuffixMap;
use vstd::prelude::*;

verus! {

/// Whether the new variable `x` (numbered `nv` or above) spells out `s` in
/// `g`: its only body is the first symbol of `s` followed either by the
/// second and last symbol, or by a new variable that spells out the rest.
pub open spec fn spells(g: Seq<Seq<Seq<SymbolIndex>>>, nv: nat, x: int, s: Seq<SymbolIndex>) -> bool
    decreases s.len(),
{
    &&& nv <= x < g.len()
    &&& s.len() >= 2
    &&& g[x].len() == 1
    &&& g[x][0].len() == 2
    &&& g[x][0][0] == s[0]
    &&& if s.len() == 2 {
        g[x][0][1] == s[1]
    } else {
        &&& g[x][0][1] is VariableIndex
        &&& spells(g, nv, g[x][0][1]->VariableIndex_0 as int, s.drop_first())
    }
}

/// Whether `c` stands for the body `b` in a grammar whose variables from `nv`
/// on are new: a body of at most two symbols is kept, a longer one becomes its
/// first symbol followed by a new variable that spells out the rest.
pub open spec fn body_decomposed(g: Seq<Seq<Seq<SymbolIndex>>>, nv: nat, b: Seq<SymbolIndex>, c: Seq<SymbolIndex>) -> bool {
    &&& b.len() <= 2 ==> c == b
    &&& b.len() > 2 ==> {
        &&& c.len() == 2
        &&& c[0] == b[0]
        &&& c[1] is VariableIndex
        &&& spells(g, nv, c[1]->VariableIndex_0 as int, b.subrange(1, b.len() as int))
    }
}

/// Whether `s` is a proper suffix, of two symbols or more, of a body of `g`.
pub open spec fn suffix_of_body(g: Seq<Seq<Seq<SymbolIndex>>>, s: Seq<SymbolIndex>) -> bool {
    exists|h: int, j: int, i: int|
        0 <= h < g.len() && 0 <= j < g[h].len() && 1 <= i && i + 2 <= g[h][j].len()
            && s == #[trigger] g[h][j].subrange(i, g[h][j].len() as int)
}

/// Whether variable `x` of `rg` spells out a proper suffix of a body of `g`.
pub open spec fn spells_a_suffix(rg: Seq<Seq<Seq<SymbolIndex>>>, g: Seq<Seq<Seq<SymbolIndex>>>, nv: nat, x: int) -> bool {
    exists|s: Seq<SymbolIndex>| suffix_of_body(g, s) && spells(rg, nv, x, s)
}

/// Whether every entry of `done` names a variable of `rg` that spells out
/// its key, a proper suffix of a body of `g`.
pub open spec fn done_ok(
    done: Map<Seq<SymbolIndex>, usize>,
    rg: Seq<Seq<Seq<SymbolIndex>>>,
    g: Seq<Seq<Seq<SymbolIndex>>>,
    nv: nat,
) -> bool {
    forall|s: Seq<SymbolIndex>| #[trigger] done.contains_key(s) ==> suffix_of_body(g, s) && spells(rg, nv, done[s] as int, s)
}

/// Whether `done` has an entry for `x`.
pub open spec fn named(done: Map<Seq<SymbolIndex>, usize>, x: int) -> bool {
    exists|s: Seq<SymbolIndex>| done.contains_key(s) && done[s] == x
}

/// Spelling out only reads the new variables, so it survives any change that
/// keeps them.
pub proof fn lemma_spells_frame(
    g1: Seq<Seq<Seq<SymbolIndex>>>,
    g2: Seq<Seq<Seq<SymbolIndex>>>,
    nv: nat,
    x: int,
    s: Seq<SymbolIndex>,
)
    requires
        spells(g1, nv, x, s),
        g1.len() <= g2.len(),
        forall|y: int| nv <= y < g1.len() ==> #[trigger] g2[y] == g1[y],
    ensures
        spells(g2, nv, x, s),
    decreases s.len(),
{
    if s.len() > 2 {
        lemma_spells_frame(g1, g2, nv, g1[x][0][1]->VariableIndex_0 as int, s.drop_first());
    }
}

/// A chain of new variables numbered `start`, `start + 1`, ... whose last one
/// spells out the suffix of `p` from `k` on spells out, from each link on,
/// the matching suffix.
pub proof fn lemma_chain_spells(g: Seq<Seq<Seq<SymbolIndex>>>, nv: nat, p: Seq<SymbolIndex>, start: int, k: int, m: int)
    requires
        nv <= start,
        start + k <= usize::MAX,
        0 <= m < k,
        k + 2 <= p.len(),
        spells(g, nv, start + k - 1, p.subrange(k, p.len() as int)),
        forall|m2: int| 1 <= m2 < k ==> #[trigger] g[start + m2 - 1] == seq![seq![p[m2], SymbolIndex::VariableIndex((start + m2) as usize)]],
    ensures
        spells(g, nv, start + m, p.subrange(m + 1, p.len() as int)),
    decreases k - m,
{
    if m + 1 < k {
        lemma_chain_spells(g, nv, p, start, k, m + 1);
        let row = g[start + (m + 1) - 1];
        assert(row == seq![seq![p[m + 1], SymbolIndex::VariableIndex((start + m + 1) as usize)]]);
        assert(p.subrange(m + 1, p.len() as int).drop_first() =~= p.subrange(m + 2, p.len() as int));
    }
}

/// The symbols of `p` from position `from` on.
pub(crate) fn suffix_from(p: &Vec<SymbolIndex>, from: usize) -> (r: Vec<SymbolIndex>)
    requires
        from <= p@.len(),
    ensures
        r@ == p@.subrange(from as int, p@.len() as int),
{
    let mut r: Vec<SymbolIndex> = Vec::new();
    let mut i: usize = from;
    while i < p.len()
        invariant
            from <= i <= p@.len(),
            r@ == p@.subrange(from as int, i as int),
        decreases p@.len() - i,
    {
        r.push(p[i]);
        i = i + 1;
        assert(r@ =~= p@.subrange(from as int, i as int));
    }
    r
}

/// Replaces the long body `p` of variable `h` by its first symbol and a new
/// variable, reusing the variable of the longest suffix already spelled out
/// and adding new variables for the longer suffixes, each with one body.
#[verifier::rlimit(40)]
fn decompose_body(
    pl: &mut Vec<Vec<Vec<SymbolIndex>>>,
    done: &mut SuffixMap,
    h: usize,
    p: &Vec<SymbolIndex>,
    Ghost(g): Ghost<Seq<Seq<Seq<SymbolIndex>>>>,
    Ghost(j): Ghost<int>,
    Ghost(nt): Ghost<nat>,
)
    requires
        g.len() <= old(pl)@.len(),
        h < g.len(),
        0 <= j < g[h as int].len(),
        p@ == g[h as int][j],
        p@.len() >= 3,
        grammar_ok(g, nt),
        grammar_ok(grammar_of(old(pl)@), nt),
        done_ok(old(done)@, grammar_of(old(pl)@), g, g.len()),
        forall|x: int| g.len() <= x < old(pl)@.len() ==> named(old(done)@, x),
    ensures
        final(pl)@.len() >= old(pl)@.len(),
        forall|y: int| 0 <= y < old(pl)@.len() && y != h ==> #[trigger] final(pl)@[y] == old(pl)@[y],
        final(pl)@[h as int]@.len() == old(pl)@[h as int]@.len() + 1,
        forall|j2: int| 0 <= j2 < old(pl)@[h as int]@.len() ==> #[trigger] final(pl)@[h as int]@[j2] == old(pl)@[h as int]@[j2],
        body_decomposed(grammar_of(final(pl)@), g.len(), p@, final(pl)@[h as int]@.last()@),
        grammar_ok(grammar_of(final(pl)@), nt),
        done_ok(final(done)@, grammar_of(final(pl)@), g, g.len()),
        forall|x: int| g.len() <= x < final(pl)@.len() ==> named(final(done)@, x),
{
    let ghost nv = g.len();
    let ghost pl0 = pl@;
    let ghost d0 = done@;
    let start = pl.len();
    let len = p.len();
    // The first suffix that a variable already spells out, if any.
    let mut k: usize = 0;
    let mut hit: Option<usize> = None;
    while k + 2 < len
        invariant_except_break
            hit is None,
        invariant
            k + 2 <= len,
            len == p@.len(),
            done@ == d0,
            forall|m: int| 0 <= m < k ==> !d0.contains_key(#[trigger] p@.subrange(m + 1, len as int)),
        ensures
            forall|m: int| 0 <= m < k ==> !d0.contains_key(#[trigger] p@.subrange(m + 1, len as int)),
            k + 2 <= len,
            hit is None ==> k + 2 == len,
            hit matches Some(x) ==> k + 2 < len && d0.contains_key(p@.subrange(k + 1, len as int)) && x == d0[p@.subrange(k + 1, len as int)],
        decreases len - k,
    {
        match done.get(&p.as_slice()[k + 1..len]) {
            Some(x) => {
                hit = Some(x);
                break;
            },
            None => {
                k = k + 1;
            },
        }
    }
    // New variables for the suffixes from position 1 up to position k.
    let mut cur: usize = h;
    let mut i: usize = 0;
    while i < k
        invariant
            i <= k,
            k + 2 <= len,
            len == p@.len(),
            start == pl0.len(),
            nv <= start,
            h < nv,
            done@ == d0,
            pl@.len() == start + i,
            i == 0 ==> cur == h && pl@[h as int] == pl0[h as int],
            i > 0 ==> cur == start + i - 1 && pl@[cur as int]@.len() == 0,
            i > 0 ==> pl@[h as int]@.len() == pl0[h as int]@.len() + 1,
            i > 0 ==> pl@[h as int]@.last()@ == seq![p@[0], SymbolIndex::VariableIndex(start)],
            forall|j2: int| 0 <= j2 < pl0[h as int]@.len() ==> #[trigger] pl@[h as int]@[j2] == pl0[h as int]@[j2],
            forall|y: int| 0 <= y < start && y != h ==> #[trigger] pl@[y] == pl0[y],
            forall|m2: int| 1 <= m2 < i ==> #[trigger] grammar_of(pl@)[start + m2 - 1] == seq![seq![p@[m2], SymbolIndex::VariableIndex((start + m2) as usize)]],
            grammar_ok(grammar_of(pl@), nt),
            grammar_ok(g, nt),
            g.len() == nv,
            p@ == g[h as int][j],
            0 <= j < g[h as int].len(),
        decreases k - i,
    {
        let next = pl.len();
        let ghost before = pl@;
        assert(symbol_in(g, nt, g[h as int][j][i as int]));
        insert_or_append(pl, cur, crate::cfg::intersection::body_of_two(p[i], SymbolIndex::VariableIndex(next)));
        let ghost mid = pl@;
        pl.push(Vec::new());
        proof {
            assert forall|m2: int| 1 <= m2 < i + 1 implies #[trigger] grammar_of(pl@)[start + m2 - 1] == seq![seq![p@[m2], SymbolIndex::VariableIndex((start + m2) as usize)]] by {
                if m2 < i {
                    assert(pl@[start + m2 - 1] == before[start + m2 - 1]);
                    assert(grammar_of(before)[start + m2 - 1] == seq![seq![p@[m2], SymbolIndex::VariableIndex((start + m2) as usize)]]);
                } else {
                    assert(pl@[start + m2 - 1] == mid[cur as int]);
                    assert(grammar_of(pl@)[start + m2 - 1] =~= seq![seq![p@[m2], SymbolIndex::VariableIndex((start + m2) as usize)]]);
                }
            }
            assert forall|v: int, j2: int, k2: int|
                0 <= v < grammar_of(pl@).len() && 0 <= j2 < grammar_of(pl@)[v].len() && 0 <= k2 < grammar_of(pl@)[v][j2].len()
                implies symbol_in(grammar_of(pl@), nt, #[trigger] grammar_of(pl@)[v][j2][k2]) by {
                if v < before.len() && v != cur {
                    assert(pl@[v] == before[v]);
                    assert(symbol_in(grammar_of(before), nt, grammar_of(before)[v][j2][k2]));
                } else if v == cur {
                    if j2 < before[v]@.len() {
                        assert(pl@[v]@[j2] == before[v]@[j2]);
                        assert(symbol_in(grammar_of(before), nt, grammar_of(before)[v][j2][k2]));
                    }
                }
            }
            if i > 0 {
                assert(pl@[h as int] == before[h as int]);
            }
        }
        cur = next;
        i = i + 1;
    }
    let ghost built = pl@;
    let fin = match hit {
        Some(x) => crate::cfg::intersection::body_of_two(p[k], SymbolIndex::VariableIndex(x)),
        None => crate::cfg::intersection::body_of_two(p[k], p[k + 1]),
    };
    insert_or_append(pl, cur, fin);
    let total = pl.len();
    let ghost fg = grammar_of(pl@);
    proof {
        assert(total == start + k);
        // Rows from nv up to the start of this call are untouched.
        assert forall|y: int| nv <= y < pl0.len() implies #[trigger] fg[y] == grammar_of(pl0)[y] by {
            assert(pl@[y] == pl0[y]);
        }
        assert forall|s2: Seq<SymbolIndex>| #[trigger] d0.contains_key(s2) implies spells(fg, nv, d0[s2] as int, s2) by {
            lemma_spells_frame(grammar_of(pl0), fg, nv, d0[s2] as int, s2);
        }
        if k > 0 {
            // The last new variable spells out the suffix from k.
            assert(fg[start + k - 1] =~= seq![fin@]);
            if hit is Some {
                let x = hit->Some_0;
                assert(p@.subrange(k as int, len as int).drop_first() =~= p@.subrange(k + 1, len as int));
            } else {
                assert(p@.subrange(k as int, len as int) =~= seq![p@[k as int], p@[k + 1]]);
            }
            assert(spells(fg, nv, start + k - 1, p@.subrange(k as int, len as int)));
            assert forall|m2: int| 1 <= m2 < k implies #[trigger] fg[start + m2 - 1] == seq![seq![p@[m2], SymbolIndex::VariableIndex((start + m2) as usize)]] by {
                assert(pl@[start + m2 - 1] == built[start + m2 - 1]);
                assert(grammar_of(built)[start + m2 - 1] == seq![seq![p@[m2], SymbolIndex::VariableIndex((start + m2) as usize)]]);
            }
            assert forall|m2: int| 0 <= m2 < k implies spells(fg, nv, start + m2, #[trigger] p@.subrange(m2 + 1, len as int)) by {
                lemma_chain_spells(fg, nv, p@, start as int, k as int, m2);
            }
        }
    }
    // Record the new variables.
    let mut m: usize = 0;
    while m < k
        invariant
            m <= k,
            k + 2 <= len,
            len == p@.len(),
            pl@.len() == start + k,
            start + k <= usize::MAX,
            fg == grammar_of(pl@),
            forall|s2: Seq<SymbolIndex>| #[trigger] d0.contains_key(s2) ==> done@.contains_key(s2) && done@[s2] == d0[s2],
            forall|s2: Seq<SymbolIndex>| #[trigger] done@.contains_key(s2) ==> d0.contains_key(s2) || exists|m2: int| 0 <= m2 < m && s2 == #[trigger] p@.subrange(m2 + 1, len as int) && done@[s2] == start + m2,
            forall|m2: int| 0 <= m2 < m ==> done@.contains_key(#[trigger] p@.subrange(m2 + 1, len as int)) && done@[p@.subrange(m2 + 1, len as int)] == start + m2,
            forall|m2: int| 0 <= m2 < k ==> !d0.contains_key(#[trigger] p@.subrange(m2 + 1, len as int)),
        decreases k - m,
    {
        let suffix = suffix_from(p, m + 1);
        proof {
            assert forall|m2: int| 0 <= m2 < m implies #[trigger] p@.subrange(m2 + 1, len as int) != suffix@ by {
                assert(p@.subrange(m2 + 1, len as int).len() != suffix@.len());
            }
        }
        done.insert(suffix, start + m);
        m = m + 1;
    }
    proof {
        let c = pl@[h as int]@.last()@;
        if k > 0 {
            assert(pl@[h as int]@.last() == built[h as int]@.last());
            assert(c == seq![p@[0], SymbolIndex::VariableIndex(start)]);
        } else {
            assert(c == fin@);
        }
        assert(body_decomposed(fg, nv, p@, c));
        assert forall|s2: Seq<SymbolIndex>| #[trigger] done@.contains_key(s2) implies suffix_of_body(g, s2) && spells(fg, nv, done@[s2] as int, s2) by {
            if !d0.contains_key(s2) {
                let m2 = choose|m2: int| 0 <= m2 < k && s2 == #[trigger] p@.subrange(m2 + 1, len as int) && done@[s2] == start + m2;
                assert(g[h as int][j].subrange(m2 + 1, g[h as int][j].len() as int) == s2);
                assert(spells(fg, nv, start + m2, p@.subrange(m2 + 1, len as int)));
            }
        }
        assert forall|x: int| nv <= x < pl@.len() implies named(done@, x) by {
            if x < start {
                assert(named(d0, x));
                let s2 = choose|s2: Seq<SymbolIndex>| d0.contains_key(s2) && d0[s2] == x;
                assert(done@.contains_key(s2) && done@[s2] == x);
            } else {
                let m2 = x - start;
                let s2 = p@.subrange(m2 + 1, len as int);
                assert(done@.contains_key(s2) && done@[s2] == x);
            }
        }
        assert forall|v: int, j2: int, k2: int|
            0 <= v < fg.len() && 0 <= j2 < fg[v].len() && 0 <= k2 < fg[v][j2].len()
            implies symbol_in(fg, nt, #[trigger] fg[v][j2][k2]) by {
            if v == cur && j2 == fg[v].len() - 1 {
                assert(fg[v][j2] == fin@);
                assert(symbol_in(g, nt, g[h as int][j][k as int]));
                assert(symbol_in(g, nt, g[h as int][j][k + 1]));
            } else {
                assert(pl@[v]@[j2] == built[v]@[j2]);
                assert(symbol_in(grammar_of(built), nt, grammar_of(built)[v][j2][k2]));
            }
        }
    }
}

/// A decomposed body stays decomposed under any change that keeps the new
/// variables.
pub proof fn lemma_decomposed_frame(
    g1: Seq<Seq<Seq<SymbolIndex>>>,
    g2: Seq<Seq<Seq<SymbolIndex>>>,
    nv: nat,
    b: Seq<SymbolIndex>,
    c: Seq<SymbolIndex>,
)
    requires
        body_decomposed(g1, nv, b, c),
        g1.len() <= g2.len(),
        forall|y: int| nv <= y < g1.len() ==> #[trigger] g2[y] == g1[y],
    ensures
        body_decomposed(g2, nv, b, c),
{
    if b.len() > 2 {
        lemma_spells_frame(g1, g2, nv, c[1]->VariableIndex_0 as int, b.subrange(1, b.len() as int));
    }
}

/// The entries of `done` keep spelling out their keys under any change that
/// keeps the new variables.
pub proof fn lemma_done_frame(
    done: Map<Seq<SymbolIndex>, usize>,
    g1: Seq<Seq<Seq<SymbolIndex>>>,
    g2: Seq<Seq<Seq<SymbolIndex>>>,
    g: Seq<Seq<Seq<SymbolIndex>>>,
    nv: nat,
)
    requires
        done_ok(done, g1, g, nv),
        g1.len() <= g2.len(),
        forall|y: int| nv <= y < g1.len() ==> #[trigger] g2[y] == g1[y],
    ensures
        done_ok(done, g2, g, nv),
{
    assert forall|s: Seq<SymbolIndex>| #[trigger] done.contains_key(s) implies suffix_of_body(g, s) && spells(g2, nv, done[s] as int, s) by {
        lemma_spells_frame(g1, g2, nv, done[s] as int, s);
    }
}

/// The symbols of a suffix that a new variable spells out are those of its
/// only body, so a suffix of a body made of variables leaves a body made of
/// two variables.
pub proof fn lemma_spelled_row_binary(rg: Seq<Seq<Seq<SymbolIndex>>>, g: Seq<Seq<Seq<SymbolIndex>>>, nv: nat, x: int)
    requires
        spells_a_suffix(rg, g, nv, x),
        long_bodies_variables(g),
    ensures
        rg[x].len() == 1,
        rg[x][0].len() == 2,
        rg[x][0][0] is VariableIndex,
        rg[x][0][1] is VariableIndex,
{
    let s = choose|s: Seq<SymbolIndex>| suffix_of_body(g, s) && spells(rg, nv, x, s);
    let (h, j, i) = choose|h: int, j: int, i: int|
        0 <= h < g.len() && 0 <= j < g[h].len() && 1 <= i && i + 2 <= g[h][j].len()
            && s == #[trigger] g[h][j].subrange(i, g[h][j].len() as int);
    assert(g[h][j][i] is VariableIndex);
    assert(g[h][j][i + 1] is VariableIndex);
    assert(s[0] == g[h][j][i]);
    assert(s[1] == g[h][j][i + 1]);
}

impl CFG {
    /// The grammar in which every body of three symbols or more is replaced by
    /// its first symbol and a new variable that spells out the rest through a
    /// chain of new variables of one body of two symbols each; equal suffixes
    /// share one chain.
    pub fn with_decomposed_productions(&self) -> (r: Self)
        requires
            self.wf(),
        ensures
            r.wf(),
            r.terminals@ == self.terminals@,
            r.start_symbol == self.start_symbol,
            r.productions@.len() >= self.productions@.len(),
            forall|h: int| 0 <= h < self.productions@.len() ==> (#[trigger] r.g()[h]).len() == self.g()[h].len(),
            forall|h: int, j: int| 0 <= h < self.productions@.len() && 0 <= j < self.g()[h].len()
                ==> body_decomposed(r.g(), self.productions@.len(), #[trigger] self.g()[h][j], r.g()[h][j]),
            forall|x: int| self.productions@.len() <= x < r.productions@.len()
                ==> #[trigger] spells_a_suffix(r.g(), self.g(), self.productions@.len(), x),
            short_bodies(r.g()),
            long_bodies_variables(self.g()) ==> binary_form(r.g()),
            forall|w: Seq<Seq<char>>| #[trigger] r.generates_word(w) == self.generates_word(w),
            r._is_cleaned is None,
            r._in_normal_form is None,
    {
        let ghost g = self.g();
        let ghost nt = self.nt();
        let nv = self.productions.len();
        let mut pl: Vec<Vec<Vec<SymbolIndex>>> = Vec::new();
        while pl.len() < nv
            invariant
                pl@.len() <= nv,
                forall|h2: int| 0 <= h2 < pl@.len() ==> (#[trigger] pl@[h2])@.len() == 0,
            decreases nv - pl@.len(),
        {
            pl.push(Vec::new());
        }
        let mut done = SuffixMap::new();
        let mut h: usize = 0;
        while h < nv
            invariant
                self.wf(),
                g == self.g(),
                nt == self.nt(),
                nv == g.len(),
                h <= nv,
                pl@.len() >= nv,
                forall|h2: int| h <= h2 < nv ==> (#[trigger] pl@[h2])@.len() == 0,
                forall|h2: int| 0 <= h2 < h ==> (#[trigger] grammar_of(pl@)[h2]).len() == g[h2].len(),
                forall|h2: int, j: int| 0 <= h2 < h && 0 <= j < g[h2].len()
                    ==> body_decomposed(grammar_of(pl@), nv as nat, #[trigger] g[h2][j], grammar_of(pl@)[h2][j]),
                grammar_ok(grammar_of(pl@), nt),
                done_ok(done@, grammar_of(pl@), g, nv as nat),
                forall|x: int| nv <= x < pl@.len() ==> named(done@, x),
            decreases nv - h,
        {
            let productions = &self.productions[h];
            let mut j: usize = 0;
            while j < productions.len()
                invariant
                    self.wf(),
                    g == self.g(),
                    nt == self.nt(),
                    nv == g.len(),
                    h < nv,
                    productions@ == self.productions@[h as int]@,
                    j <= productions@.len(),
                    pl@.len() >= nv,
                    pl@[h as int]@.len() == j,
                    forall|h2: int| h < h2 < nv ==> (#[trigger] pl@[h2])@.len() == 0,
                    forall|h2: int| 0 <= h2 < h ==> (#[trigger] grammar_of(pl@)[h2]).len() == g[h2].len(),
                    forall|h2: int, j2: int| 0 <= h2 < h && 0 <= j2 < g[h2].len()
                        ==> body_decomposed(grammar_of(pl@), nv as nat, #[trigger] g[h2][j2], grammar_of(pl@)[h2][j2]),
                    forall|j2: int| 0 <= j2 < j
                        ==> body_decomposed(grammar_of(pl@), nv as nat, #[trigger] g[h as int][j2], grammar_of(pl@)[h as int][j2]),
                    grammar_ok(grammar_of(pl@), nt),
                    done_ok(done@, grammar_of(pl@), g, nv as nat),
                    forall|x: int| nv <= x < pl@.len() ==> named(done@, x),
                decreases productions@.len() - j,
            {
                let production = &productions[j];
                let ghost before = pl@;
                let ghost gb = grammar_of(before);
                if production.len() <= 2 {
                    insert_or_append(&mut pl, h, clone_body(production));
                    proof {
                        assert forall|v: int, j2: int, k2: int|
                            0 <= v < grammar_of(pl@).len() && 0 <= j2 < grammar_of(pl@)[v].len() && 0 <= k2 < grammar_of(pl@)[v][j2].len()
                            implies symbol_in(grammar_of(pl@), nt, #[trigger] grammar_of(pl@)[v][j2][k2]) by {
                            if v == h && j2 == j {
                                assert(grammar_of(pl@)[v][j2] == g[h as int][j as int]);
                                assert(symbol_in(g, nt, g[h as int][j as int][k2]));
                            } else if v == h {
                                assert(pl@[v]@[j2] == before[v]@[j2]);
                                assert(symbol_in(gb, nt, gb[v][j2][k2]));
                            } else {
                                assert(pl@[v] == before[v]);
                                assert(symbol_in(gb, nt, gb[v][j2][k2]));
                            }
                        }
                    }
                } else {
                    decompose_body(&mut pl, &mut done, h, production, Ghost(g), Ghost(j as int), Ghost(nt));
                }
                proof {
                    let ga = grammar_of(pl@);
                    assert forall|y: int| nv <= y < gb.len() implies #[trigger] ga[y] == gb[y] by {
                        assert(pl@[y] == before[y]);
                    }
                    if production.len() <= 2 {
                        lemma_done_frame(done@, gb, ga, g, nv as nat);
                    }
                    assert forall|h2: int| 0 <= h2 < h implies (#[trigger] ga[h2]).len() == g[h2].len() by {
                        assert(pl@[h2] == before[h2]);
                        assert(ga[h2] == gb[h2]);
                    }
                    assert forall|h2: int, j2: int| 0 <= h2 < h && 0 <= j2 < g[h2].len()
                        implies body_decomposed(ga, nv as nat, #[trigger] g[h2][j2], ga[h2][j2]) by {
                        assert(pl@[h2] == before[h2]);
                        lemma_decomposed_frame(gb, ga, nv as nat, g[h2][j2], gb[h2][j2]);
                    }
                    assert forall|j2: int| 0 <= j2 < j + 1
                        implies body_decomposed(ga, nv as nat, #[trigger] g[h as int][j2], ga[h as int][j2]) by {
                        if j2 < j {
                            assert(pl@[h as int]@[j2] == before[h as int]@[j2]);
                            lemma_decomposed_frame(gb, ga, nv as nat, g[h as int][j2], gb[h as int][j2]);
                        } else {
                            assert(ga[h as int][j2] == pl@[h as int]@.last()@);
                        }
                    }
                    assert forall|h2: int| h < h2 < nv implies (#[trigger] pl@[h2])@.len() == 0 by {
                        assert(pl@[h2] == before[h2]);
                    }
                }
                j = j + 1;
            }
            h = h + 1;
        }
        let ghost pf = pl@;
        let r = CFG::new(Some(self.terminal_map.clone()), clone_terminals(&self.terminals), self.start_symbol, pl);
        proof {
            let rg = r.g();
            assert(rg == grammar_of(pf));
            assert forall|x: int| nv <= x < r.productions@.len() implies #[trigger] spells_a_suffix(rg, g, nv as nat, x) by {
                assert(named(done@, x));
                let s = choose|s: Seq<SymbolIndex>| done@.contains_key(s) && done@[s] == x;
                assert(done@.contains_key(s));
                assert(suffix_of_body(g, s) && spells(rg, nv as nat, x, s));
            }
            assert forall|v: int, j: int| 0 <= v < rg.len() && 0 <= j < rg[v].len() implies (#[trigger] rg[v][j]).len() <= 2 by {
                if v >= nv {
                    assert(spells_a_suffix(rg, g, nv as nat, v));
                    let s = choose|s: Seq<SymbolIndex>| suffix_of_body(g, s) && spells(rg, nv as nat, v, s);
                } else {
                    assert(body_decomposed(rg, nv as nat, g[v][j], rg[v][j]));
                }
            }
            if long_bodies_variables(g) {
                assert forall|v: int, j: int| 0 <= v < rg.len() && 0 <= j < rg[v].len() implies {
                    let b = #[trigger] rg[v][j];
                    &&& b.len() <= 2
                    &&& b.len() == 2 ==> b[0] is VariableIndex && b[1] is VariableIndex
                } by {
                    if v >= nv {
                        assert(spells_a_suffix(rg, g, nv as nat, v));
                        lemma_spelled_row_binary(rg, g, nv as nat, v);
                    } else {
                        let b = g[v][j];
                        assert(body_decomposed(rg, nv as nat, b, rg[v][j]));
                        if b.len() >= 2 {
                            assert(b[0] is VariableIndex);
                        }
                        if b.len() == 2 {
                            assert(b[1] is VariableIndex);
                        }
                    }
                }
            }
            assert(crate::cfg::decompose_words::decomposes(g, rg));
            crate::cfg::decompose_words::lemma_decomposed_language(*self, r);
        }
        r
    }
}

} // verus!
