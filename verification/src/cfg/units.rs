//! Unit productions: bodies made of a single variable, and the pairs of
//! variables that chains of them connect.
use crate::cfg::cfg::{grammar_ok, symbol_in, SymbolIndex, CFG};
use crate::collections::{IndexSetMap, PairSet};
use vstd::prelude::*;

verus! {

/// Whether variable `x` has the body made of variable `y` alone.
pub open spec fn unit_step(g: Seq<Seq<Seq<SymbolIndex>>>, x: int, y: int) -> bool {
    0 <= x < g.len() && exists|j: int| 0 <= j < g[x].len() && #[trigger] g[x][j] == seq![SymbolIndex::VariableIndex(y as usize)]
}

/// Whether one of the first `upto` bodies of variable `x` is variable `y` alone.
pub open spec fn unit_row(g: Seq<Seq<Seq<SymbolIndex>>>, x: int, y: usize, upto: int) -> bool {
    exists|j: int| 0 <= j < upto && #[trigger] g[x][j] == seq![SymbolIndex::VariableIndex(y)]
}

/// Whether the map lists `y` among the variables of `x`.
pub open spec fn lists(m: Map<usize, Set<usize>>, x: usize, y: usize) -> bool {
    m.contains_key(x) && m[x].contains(y)
}

/// Whether `path` is a chain of variables, each with a body made of the next.
pub open spec fn unit_path(g: Seq<Seq<Seq<SymbolIndex>>>, path: Seq<usize>) -> bool {
    &&& path.len() >= 1
    &&& forall|i: int| 0 <= i < path.len() - 1 ==> unit_step(g, #[trigger] path[i] as int, path[i + 1] as int)
}

/// Whether a chain of unit productions leads from variable `a` to `b`
/// (every variable of the grammar leads to itself).
pub open spec fn unit_pair(g: Seq<Seq<Seq<SymbolIndex>>>, a: usize, b: usize) -> bool {
    &&& a < g.len()
    &&& exists|path: Seq<usize>| #[trigger] unit_path(g, path) && path[0] == a && path.last() == b
}

/// A pair that the set holds, and that every unit production out of its
/// second variable leads to a pair of the set, closes the set along chains.
proof fn lemma_unit_closed(g: Seq<Seq<Seq<SymbolIndex>>>, set: Set<(usize, usize)>, a: usize, path: Seq<usize>, i: int)
    requires
        unit_path(g, path),
        path[0] == a,
        0 <= i < path.len(),
        set.contains((a, a)),
        forall|x: usize, y: usize| #![trigger set.contains((a, x)), unit_step(g, x as int, y as int)]
            set.contains((a, x)) && unit_step(g, x as int, y as int) ==> set.contains((a, y)),
    ensures
        set.contains((a, path[i])),
    decreases i,
{
    if i > 0 {
        lemma_unit_closed(g, set, a, path, i - 1);
        assert(unit_step(g, path[i - 1] as int, path[i] as int));
    }
}

impl CFG {
    /// The pairs of variables `(a, b)` such that a chain of unit productions
    /// leads from `a` to `b`, every variable paired with itself included.
    #[verifier::rlimit(40)]
    pub fn get_unit_pairs(&self) -> (r: PairSet)
        requires
            self.wf(),
        ensures
            forall|p: (usize, usize)| #[trigger] r@.contains(p) <==> unit_pair(self.g(), p.0, p.1),
    {
        let ghost g = self.g();
        let nv = self.productions.len();
        let mut unit_pairs = PairSet::new();
        let mut to_process: Vec<(usize, usize)> = Vec::new();
        let mut v: usize = 0;
        while v < nv
            invariant
                g == self.g(),
                nv == g.len(),
                v <= nv,
                forall|p: (usize, usize)| #[trigger] unit_pairs@.contains(p) <==> p.0 == p.1 && p.0 < v,
                to_process@.len() == v,
                forall|i: int| 0 <= i < v ==> #[trigger] to_process@[i] == (i as usize, i as usize),
            decreases nv - v,
        {
            unit_pairs.insert((v, v));
            to_process.push((v, v));
            v = v + 1;
        }
        // For every variable, the variables that are its bodies of one symbol.
        let mut unit_productions = IndexSetMap::new();
        let mut head: usize = 0;
        while head < nv
            invariant
                g == self.g(),
                nv == g.len(),
                head <= nv,
                forall|x: usize, y: usize| #[trigger] lists(unit_productions@, x, y) <==> x < head && unit_step(g, x as int, y as int),
                forall|p: (usize, usize)| #[trigger] unit_pairs@.contains(p) <==> p.0 == p.1 && p.0 < nv,
                to_process@.len() == nv,
                forall|i: int| 0 <= i < nv ==> #[trigger] to_process@[i] == (i as usize, i as usize),
            decreases nv - head,
        {
            let productions = &self.productions[head];
            let mut j: usize = 0;
            while j < productions.len()
                invariant
                    g == self.g(),
                    nv == g.len(),
                    head < nv,
                    productions@ == self.productions@[head as int]@,
                    j <= productions@.len(),
                    forall|p: (usize, usize)| #[trigger] unit_pairs@.contains(p) <==> p.0 == p.1 && p.0 < nv,
                    to_process@.len() == nv,
                    forall|i: int| 0 <= i < nv ==> #[trigger] to_process@[i] == (i as usize, i as usize),
                    forall|x: usize, y: usize| #[trigger] lists(unit_productions@, x, y) <==> (x < head && unit_step(g, x as int, y as int))
                        || (x == head && unit_row(g, x as int, y, j as int)),
                decreases productions@.len() - j,
            {
                let production = &productions[j];
                assert(production@ == g[head as int][j as int]);
                let ghost m0 = unit_productions@;
                if production.len() == 1 {
                    match production[0] {
                        SymbolIndex::VariableIndex(index) => {
                            unit_productions.add(head, index);
                            proof {
                                assert(production@ =~= seq![SymbolIndex::VariableIndex(index)]);
                            }
                        },
                        _ => {},
                    }
                }
                proof {
                    assert forall|x: usize, y: usize| #[trigger] lists(unit_productions@, x, y) <==> (x < head && unit_step(g, x as int, y as int))
                        || (x == head && unit_row(g, x as int, y, j + 1)) by {
                        if x == head && g[x as int][j as int] == seq![SymbolIndex::VariableIndex(y)] {
                            assert(production@.len() == 1 && production@[0] == SymbolIndex::VariableIndex(y));
                            assert(lists(unit_productions@, x, y));
                        }
                        if lists(m0, x, y) {
                            assert(lists(unit_productions@, x, y));
                        }
                        if x == head && unit_row(g, x as int, y, j + 1) && !unit_row(g, x as int, y, j as int) {
                            assert(g[x as int][j as int] == seq![SymbolIndex::VariableIndex(y)]);
                        }
                        if x == head && unit_row(g, x as int, y, j as int) {
                            let j2 = choose|j2: int| 0 <= j2 < j && #[trigger] g[x as int][j2] == seq![SymbolIndex::VariableIndex(y)];
                            assert(unit_row(g, x as int, y, j + 1));
                        }
                    }
                }
                j = j + 1;
            }
            proof {
                assert forall|x: usize, y: usize| #[trigger] lists(unit_productions@, x, y) <==> x < head + 1 && unit_step(g, x as int, y as int) by {
                    if x == head && unit_step(g, x as int, y as int) {
                        let j2 = choose|j2: int| 0 <= j2 < g[x as int].len() && #[trigger] g[x as int][j2] == seq![SymbolIndex::VariableIndex(y)];
                        assert(unit_row(g, x as int, y, productions@.len() as int));
                    }
                    if x == head && unit_row(g, x as int, y, productions@.len() as int) {
                        let j2 = choose|j2: int| 0 <= j2 < productions@.len() && #[trigger] g[x as int][j2] == seq![SymbolIndex::VariableIndex(y)];
                        assert(unit_step(g, x as int, y as int));
                    }
                }
            }
            head = head + 1;
        }
        let ghost mut done: Set<(usize, usize)> = Set::empty();
        proof {
            assert forall|p: (usize, usize)| #[trigger] unit_pairs@.contains(p) implies unit_pair(g, p.0, p.1) && p.1 < nv by {
                assert(unit_path(g, seq![p.0]));
            }
            assert forall|p: (usize, usize)| #[trigger] unit_pairs@.contains(p) implies done.contains(p) || to_process@.contains(p) by {
                assert(to_process@[p.0 as int] == p);
            }
            assert forall|i: int| 0 <= i < to_process@.len() implies #[trigger] unit_pairs@.contains(to_process@[i]) by {
                assert(to_process@[i] == (i as usize, i as usize));
            }
            crate::util::lemma_bounded_pair_set(unit_pairs@, nv as nat, nv as nat);
        }
        while to_process.len() > 0
            invariant
                self.wf(),
                g == self.g(),
                nv == g.len(),
                forall|x: usize, y: usize| #[trigger] lists(unit_productions@, x, y) <==> x < nv && unit_step(g, x as int, y as int),
                forall|p: (usize, usize)| #[trigger] unit_pairs@.contains(p) ==> unit_pair(g, p.0, p.1) && p.1 < nv,
                forall|a: usize| a < nv ==> #[trigger] unit_pairs@.contains((a, a)),
                forall|i: int| 0 <= i < to_process@.len() ==> #[trigger] unit_pairs@.contains(to_process@[i]),
                forall|p: (usize, usize)| #[trigger] unit_pairs@.contains(p) ==> done.contains(p) || to_process@.contains(p),
                forall|p: (usize, usize), y: usize| #![trigger done.contains(p), unit_step(g, p.1 as int, y as int)]
                    done.contains(p) && unit_step(g, p.1 as int, y as int) ==> unit_pairs@.contains((p.0, y)),
                unit_pairs@.finite(),
                unit_pairs@.len() <= nv * nv,
            decreases nv * nv - unit_pairs@.len(), to_process@.len(),
        {
            let ghost stack0 = to_process@;
            let (h, body) = to_process.pop().unwrap();
            proof {
                assert(stack0 == to_process@.push((h, body)));
                assert(stack0[stack0.len() - 1] == (h, body));
                assert(unit_pairs@.contains((h, body)));
            }
            let nexts = unit_productions.targets(body);
            proof {
                assert(unit_pair(g, h, body));
                assert forall|t: int| 0 <= t < nexts@.len() implies unit_step(g, body as int, #[trigger] nexts@[t] as int) by {
                    assert(nexts@.to_set().contains(nexts@[t]));
                    assert(lists(unit_productions@, body, nexts@[t]));
                }
            }
            let ghost set0 = unit_pairs@;
            let ghost stack1 = to_process@;
            let mut k: usize = 0;
            while k < nexts.len()
                invariant
                    g == self.g(),
                    nv == g.len(),
                    set0.contains((h, body)),
                    unit_pair(g, h, body),
                    k <= nexts@.len(),
                    forall|t: int| 0 <= t < nexts@.len() ==> unit_step(g, body as int, #[trigger] nexts@[t] as int),
                    forall|p: (usize, usize)| #[trigger] unit_pairs@.contains(p) <==> set0.contains(p) || exists|t: int| 0 <= t < k && p == (h, #[trigger] nexts@[t]),
                    to_process@.len() >= stack1.len(),
                    forall|i: int| 0 <= i < stack1.len() ==> #[trigger] to_process@[i] == stack1[i],
                    forall|i: int| stack1.len() <= i < to_process@.len() ==> #[trigger] unit_pairs@.contains(to_process@[i]),
                    forall|p: (usize, usize)| #[trigger] unit_pairs@.contains(p) && !set0.contains(p) ==> to_process@.contains(p),
                    unit_pairs@.finite(),
                    unit_pairs@.len() >= set0.len(),
                    unit_pairs@.len() == set0.len() ==> to_process@.len() == stack1.len(),
                decreases nexts@.len() - k,
            {
                let next_body = nexts[k];
                let ghost s1 = unit_pairs@;
                let ghost st1 = to_process@;
                if unit_pairs.insert((h, next_body)) {
                    to_process.push((h, next_body));
                    proof {
                        assert(to_process@[st1.len() as int] == (h, next_body));
                    }
                }
                proof {
                    assert forall|p: (usize, usize)| #[trigger] unit_pairs@.contains(p) && !set0.contains(p) implies to_process@.contains(p) by {
                        if s1.contains(p) {
                            let i = choose|i: int| 0 <= i < st1.len() && st1[i] == p;
                            assert(to_process@[i] == p);
                        } else {
                            assert(to_process@[to_process@.len() - 1] == p);
                        }
                    }
                    assert forall|p: (usize, usize)| #[trigger] unit_pairs@.contains(p) <==> set0.contains(p) || exists|t: int| 0 <= t < k + 1 && p == (h, #[trigger] nexts@[t]) by {
                        if p == (h, next_body) {
                            assert(p == (h, nexts@[k as int]));
                        }
                    }
                }
                k = k + 1;
            }
            proof {
                assert forall|p: (usize, usize)| #[trigger] unit_pairs@.contains(p) implies unit_pair(g, p.0, p.1) && p.1 < nv by {
                    if !set0.contains(p) {
                        let t = choose|t: int| 0 <= t < k && p == (h, #[trigger] nexts@[t]);
                        let y = nexts@[t];
                        assert(unit_step(g, body as int, y as int));
                        let jy = choose|jy: int| 0 <= jy < g[body as int].len() && #[trigger] g[body as int][jy] == seq![SymbolIndex::VariableIndex(y)];
                        assert(symbol_in(g, self.nt(), g[body as int][jy][0]));
                        let path = choose|path: Seq<usize>| #[trigger] unit_path(g, path) && path[0] == h && path.last() == body;
                        let path2 = path.push(y);
                        assert forall|i: int| 0 <= i < path2.len() - 1 implies unit_step(g, #[trigger] path2[i] as int, path2[i + 1] as int) by {
                            if i < path.len() - 1 {
                                assert(path2[i] == path[i] && path2[i + 1] == path[i + 1]);
                            }
                        }
                        assert(unit_path(g, path2));
                    }
                }
                done = done.insert((h, body));
                assert forall|y: usize| unit_step(g, body as int, y as int) implies unit_pairs@.contains((h, y)) by {
                    assert(lists(unit_productions@, body, y));
                    assert(nexts@.to_set().contains(y));
                    let t = choose|t: int| 0 <= t < nexts@.len() && nexts@[t] == y;
                    assert(unit_pairs@.contains((h, nexts@[t])));
                }
                assert forall|p: (usize, usize)| #[trigger] unit_pairs@.contains(p) implies done.contains(p) || to_process@.contains(p) by {
                    if set0.contains(p) && !done.contains(p) {
                        assert(stack0.contains(p));
                        let i = choose|i: int| 0 <= i < stack0.len() && stack0[i] == p;
                        assert(i < stack1.len());
                        assert(to_process@[i] == p);
                    }
                }
                assert forall|i: int| 0 <= i < to_process@.len() implies #[trigger] unit_pairs@.contains(to_process@[i]) by {
                    if i < stack1.len() {
                        assert(to_process@[i] == stack1[i]);
                        assert(stack1[i] == stack0[i]);
                    }
                }
                assert forall|x: (usize, usize)| #[trigger] unit_pairs@.contains(x) implies x.0 < nv && x.1 < nv by {
                    assert(unit_pair(g, x.0, x.1));
                }
                crate::util::lemma_bounded_pair_set(unit_pairs@, nv as nat, nv as nat);
            }
        }
        proof {
            assert forall|p: (usize, usize)| unit_pair(g, p.0, p.1) implies #[trigger] unit_pairs@.contains(p) by {
                let path = choose|path: Seq<usize>| #[trigger] unit_path(g, path) && path[0] == p.0 && path.last() == p.1;
                lemma_unit_closed(g, unit_pairs@, p.0, path, path.len() - 1);
            }
        }
        unit_pairs
    }
}

} // verus!
