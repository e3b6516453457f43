//! The productions of a grammar written with the names of their symbols.
use crate::cfg::cfg::{variable_name, SymbolIndex, CFG};
use crate::cfg::production::{Production, Symbol};
use crate::cfg::variable::Variable;
use crate::input_symbol::InputSymbol;
use crate::collections::VariableIndexMap;
use crate::text::{decimal, lemma_decimal_injective};
use vstd::prelude::*;

verus! {

/// Variables with different numbers have different names.
pub proof fn lemma_variable_name_injective(i: nat, j: nat)
    ensures
        variable_name(i) == variable_name(j) ==> i == j,
{
    if variable_name(i) == variable_name(j) {
        assert(decimal(i) =~= variable_name(i).subrange(2, variable_name(i).len() as int));
        assert(decimal(j) =~= variable_name(j).subrange(2, variable_name(j).len() as int));
        lemma_decimal_injective(i, j);
    }
}

impl CFG {
    /// Whether the production `p` writes the body `b` of the variable
    /// numbered `v`: the head named after `v`, each terminal by its name and
    /// each variable named after its number.
    pub open spec fn writes(&self, v: nat, b: Seq<SymbolIndex>, p: Production) -> bool {
        &&& p.head@ == variable_name(v)
        &&& p.body@.len() == b.len()
        &&& forall|k: int| 0 <= k < b.len() ==> match (#[trigger] p.body@[k], b[k]) {
            (Symbol::T(t), SymbolIndex::TerminalIndex(i)) => t@ == self.terminals@[i as int]@,
            (Symbol::V(x), SymbolIndex::VariableIndex(j)) => x@ == variable_name(j as nat),
            _ => false,
        }
    }

    /// Whether the production `p` writes some body of some variable.
    pub open spec fn writes_some(&self, p: Production) -> bool {
        exists|v: int, j: int| 0 <= v < self.g().len() && 0 <= j < self.g()[v].len() && #[trigger] self.writes(v as nat, self.g()[v][j], p)
    }

    /// Whether some production of `ps` writes body `j` of variable `v`.
    pub open spec fn written_in(&self, ps: Seq<Production>, v: int, j: int) -> bool {
        exists|k: int| 0 <= k < ps.len() && #[trigger] self.writes(v as nat, self.g()[v][j], ps[k])
    }

    /// The map from the name of each variable to its number.
    pub fn get_non_terminal_map(&self) -> (m: VariableIndexMap)
        ensures
            forall|i: int| 0 <= i < self.productions@.len() ==> #[trigger] m@.contains_key(variable_name(i as nat))
                && m@[variable_name(i as nat)] == i,
            forall|k: Seq<char>| #[trigger] m@.contains_key(k) ==> exists|i: int| 0 <= i < self.productions@.len() && k == #[trigger] variable_name(i as nat),
    {
        let mut m = VariableIndexMap::new();
        let mut i: usize = 0;
        while i < self.productions.len()
            invariant
                i <= self.productions@.len(),
                forall|j: int| 0 <= j < i ==> #[trigger] m@.contains_key(variable_name(j as nat)) && m@[variable_name(j as nat)] == j,
                forall|k: Seq<char>| #[trigger] m@.contains_key(k) ==> exists|j: int| 0 <= j < i && k == #[trigger] variable_name(j as nat),
            decreases self.productions@.len() - i,
        {
            let v = self.get_variable_at(i);
            m.insert(v, i);
            proof {
                assert forall|j: int| 0 <= j < i + 1 implies #[trigger] m@.contains_key(variable_name(j as nat)) && m@[variable_name(j as nat)] == j by {
                    lemma_variable_name_injective(j as nat, i as nat);
                }
                assert forall|k: Seq<char>| #[trigger] m@.contains_key(k) implies exists|j: int| 0 <= j < i + 1 && k == #[trigger] variable_name(j as nat) by {
                    if k == variable_name(i as nat) {
                        let j = i as int;
                        assert(k == variable_name(j as nat));
                    } else {
                        let j = choose|j: int| 0 <= j < i && k == #[trigger] variable_name(j as nat);
                        assert(k == variable_name(j as nat));
                    }
                }
            }
            i = i + 1;
        }
        m
    }

    /// The productions of the variable numbered `index`, written with names.
    fn productions_at(&self, index: usize) -> (r: Vec<Production>)
        requires
            self.wf(),
            index < self.productions@.len(),
        ensures
            r@.len() == self.g()[index as int].len(),
            forall|j: int| 0 <= j < r@.len() ==> self.writes(index as nat, self.g()[index as int][j], #[trigger] r@[j]),
    {
        let row = &self.productions[index];
        let mut r: Vec<Production> = Vec::new();
        let mut j: usize = 0;
        while j < row.len()
            invariant
                self.wf(),
                index < self.productions@.len(),
                row@ == self.productions@[index as int]@,
                j <= row@.len(),
                r@.len() == j,
                forall|x: int| 0 <= x < j ==> self.writes(index as nat, self.g()[index as int][x], #[trigger] r@[x]),
            decreases row@.len() - j,
        {
            let b = &row[j];
            let mut body: Vec<Symbol> = Vec::new();
            let mut k: usize = 0;
            while k < b.len()
                invariant
                    self.wf(),
                    index < self.productions@.len(),
                    j < row@.len(),
                    row@ == self.productions@[index as int]@,
                    b@ == row@[j as int]@,
                    k <= b@.len(),
                    body@.len() == k,
                    forall|x: int| 0 <= x < k ==> match (#[trigger] body@[x], b@[x]) {
                        (Symbol::T(t), SymbolIndex::TerminalIndex(i)) => t@ == self.terminals@[i as int]@,
                        (Symbol::V(v), SymbolIndex::VariableIndex(i)) => v@ == variable_name(i as nat),
                        _ => false,
                    },
                decreases b@.len() - k,
            {
                proof {
                    assert(self.g()[index as int][j as int][k as int] == b@[k as int]);
                    assert(crate::cfg::cfg::symbol_in(self.g(), self.nt(), self.g()[index as int][j as int][k as int]));
                }
                let s = match b[k] {
                    SymbolIndex::TerminalIndex(i) => Symbol::T(self.terminals[i].clone()),
                    SymbolIndex::VariableIndex(i) => Symbol::V(self.get_variable_at(i)),
                };
                body.push(s);
                k = k + 1;
            }
            let p = Production::new(self.get_variable_at(index), body);
            r.push(p);
            proof {
                assert(self.g()[index as int][j as int] == b@);
                assert(self.writes(index as nat, self.g()[index as int][j as int], p));
            }
            j = j + 1;
        }
        r
    }

    /// The productions of the variable `non_terminal`, written with names.
    pub fn get_productions_of(&self, non_terminal: &Variable) -> (r: Vec<Production>)
        requires
            self.wf(),
            exists|i: int| 0 <= i < self.productions@.len() && non_terminal@ == #[trigger] variable_name(i as nat),
        ensures
            exists|i: int|
                0 <= i < self.productions@.len() && non_terminal@ == #[trigger] variable_name(i as nat) && r@.len() == self.g()[i].len()
                    && forall|j: int| 0 <= j < r@.len() ==> self.writes(i as nat, self.g()[i][j], #[trigger] r@[j]),
    {
        let m = self.get_non_terminal_map();
        proof {
            let i = choose|i: int| 0 <= i < self.productions@.len() && non_terminal@ == #[trigger] variable_name(i as nat);
            assert(m@.contains_key(variable_name(i as nat)));
        }
        let index = m.get(non_terminal).unwrap();
        proof {
            let i = choose|i: int| 0 <= i < self.productions@.len() && non_terminal@ == #[trigger] variable_name(i as nat);
            assert(m@.contains_key(variable_name(i as nat)));
            assert(index == i);
        }
        self.productions_at(index)
    }

    /// All productions, written with names: those of each variable in
    /// order of the variables' numbers.
    pub fn get_productions(&self) -> (r: Vec<Production>)
        requires
            self.wf(),
        ensures
            forall|k: int| 0 <= k < r@.len() ==> self.writes_some(#[trigger] r@[k]),
            forall|v: int, j: int| 0 <= v < self.g().len() && 0 <= j < self.g()[v].len() ==> #[trigger] self.written_in(r@, v, j),
    {
        let mut r: Vec<Production> = Vec::new();
        let mut v: usize = 0;
        while v < self.productions.len()
            invariant
                self.wf(),
                v <= self.productions@.len(),
                forall|k: int| 0 <= k < r@.len() ==> self.writes_some(#[trigger] r@[k]),
                forall|v2: int, j: int| 0 <= v2 < v && 0 <= j < self.g()[v2].len() ==> #[trigger] self.written_in(r@, v2, j),
            decreases self.productions@.len() - v,
        {
            let mut ps = self.productions_at(v);
            let ghost before = r@;
            let ghost block = ps@;
            r.append(&mut ps);
            proof {
                assert(r@ == before + block);
                assert forall|k: int| 0 <= k < r@.len() implies self.writes_some(#[trigger] r@[k]) by {
                    if k < before.len() {
                        assert(r@[k] == before[k]);
                        assert(self.writes_some(before[k]));
                        let (v2, j) = choose|v2: int, j: int| 0 <= v2 < self.g().len() && 0 <= j < self.g()[v2].len() && #[trigger] self.writes(v2 as nat, self.g()[v2][j], before[k]);
                        assert(self.writes(v2 as nat, self.g()[v2][j], r@[k]));
                    } else {
                        let j = k - before.len();
                        let v2 = v as int;
                        assert(r@[k] == block[j]);
                        assert(self.writes(v2 as nat, self.g()[v2][j], block[j]));
                        assert(self.writes(v2 as nat, self.g()[v2][j], r@[k]));
                    }
                }
                assert forall|v2: int, j: int| 0 <= v2 < v + 1 && 0 <= j < self.g()[v2].len() implies #[trigger] self.written_in(r@, v2, j) by {
                    if v2 < v {
                        assert(self.written_in(before, v2, j));
                        let k = choose|k: int| 0 <= k < before.len() && #[trigger] self.writes(v2 as nat, self.g()[v2][j], before[k]);
                        assert(r@[k] == before[k]);
                        assert(self.writes(v2 as nat, self.g()[v2][j], r@[k]));
                    } else {
                        let k = before.len() + j;
                        assert(r@[k] == block[j]);
                        assert(self.writes(v as nat, self.g()[v as int][j], block[j]));
                        assert(self.writes(v2 as nat, self.g()[v2][j], r@[k]));
                    }
                }
            }
            v = v + 1;
        }
        r
    }
}

/// The name of symbol `s` in a grammar with the terminals `terms`.
pub open spec fn symbol_text(terms: Seq<InputSymbol>, s: SymbolIndex) -> Seq<char> {
    match s {
        SymbolIndex::TerminalIndex(i) => terms[i as int]@,
        SymbolIndex::VariableIndex(j) => variable_name(j as nat),
    }
}

/// The names of the symbols of `b`, each followed by a space.
pub open spec fn body_text(terms: Seq<InputSymbol>, b: Seq<SymbolIndex>) -> Seq<char>
    decreases b.len(),
{
    if b.len() == 0 {
        Seq::empty()
    } else {
        body_text(terms, b.drop_last()) + symbol_text(terms, b.last()) + seq![' ']
    }
}

/// A body as text: `ε ` for the empty body.
pub open spec fn body_piece(terms: Seq<InputSymbol>, b: Seq<SymbolIndex>) -> Seq<char> {
    if b.len() == 0 {
        seq!['\u{3b5}', ' ']
    } else {
        body_text(terms, b)
    }
}

/// The bodies of `row` as text, separated by `| `.
pub open spec fn bodies_joined(terms: Seq<InputSymbol>, row: Seq<Seq<SymbolIndex>>) -> Seq<char>
    decreases row.len(),
{
    if row.len() == 0 {
        Seq::empty()
    } else if row.len() == 1 {
        body_piece(terms, row[0])
    } else {
        bodies_joined(terms, row.drop_last()) + seq!['|', ' '] + body_piece(terms, row.last())
    }
}

/// The line of variable `i`: its name, ` -> `, its bodies and a new line.
pub open spec fn row_text(terms: Seq<InputSymbol>, i: nat, row: Seq<Seq<SymbolIndex>>) -> Seq<char> {
    variable_name(i) + seq![' ', '-', '>', ' '] + bodies_joined(terms, row) + seq!['\n']
}

/// The lines of the variables of `g`, in order.
pub open spec fn rows_text(terms: Seq<InputSymbol>, g: Seq<Seq<Seq<SymbolIndex>>>) -> Seq<char>
    decreases g.len(),
{
    if g.len() == 0 {
        Seq::empty()
    } else {
        rows_text(terms, g.drop_last()) + row_text(terms, (g.len() - 1) as nat, g.last())
    }
}

/// The names of the terminals, each followed by a space.
pub open spec fn terminals_text(terms: Seq<InputSymbol>) -> Seq<char>
    decreases terms.len(),
{
    if terms.len() == 0 {
        Seq::empty()
    } else {
        terminals_text(terms.drop_last()) + terms.last()@ + seq![' ']
    }
}

impl CFG {
    /// The grammar as text: `Start Symbol: ` and the start variable's name
    /// on the first line, one line per variable, then `Terminals: ` and the
    /// terminals' names.
    pub open spec fn grammar_text(&self) -> Seq<char> {
        seq!['S', 't', 'a', 'r', 't', ' ', 'S', 'y', 'm', 'b', 'o', 'l', ':', ' '] + variable_name(self.start_symbol as nat) + seq!['\n']
            + rows_text(self.terminals@, self.g()) + seq!['T', 'e', 'r', 'm', 'i', 'n', 'a', 'l', 's', ':', ' '] + terminals_text(self.terminals@)
    }

    /// The grammar as text (see `grammar_text`).
    pub fn to_text(&self) -> (s: String)
        requires
            self.wf(),
        ensures
            s@ == self.grammar_text(),
    {
        let mut s = String::from_str("Start Symbol: ");
        let start = self.get_variable_at(self.start_symbol);
        s.append(start.get_name());
        s.append("\n");
        proof {
            reveal_strlit("Start Symbol: ");
            reveal_strlit("\n");
        }
        let mut i: usize = 0;
        while i < self.productions.len()
            invariant
                self.wf(),
                i <= self.productions@.len(),
                s@ == seq!['S', 't', 'a', 'r', 't', ' ', 'S', 'y', 'm', 'b', 'o', 'l', ':', ' '] + variable_name(self.start_symbol as nat) + seq!['\n']
                    + rows_text(self.terminals@, self.g().take(i as int)),
            decreases self.productions@.len() - i,
        {
            let ghost before = s@;
            let head = self.get_variable_at(i);
            s.append(head.get_name());
            s.append(" -> ");
            proof {
                reveal_strlit(" -> ");
            }
            let row = &self.productions[i];
            let ghost g_row = self.g()[i as int];
            let ghost mid = s@;
            proof {
                assert(mid == before + variable_name(i as nat) + seq![' ', '-', '>', ' ']);
            }
            let mut j: usize = 0;
            while j < row.len()
                invariant
                    self.wf(),
                    i < self.productions@.len(),
                    row@ == self.productions@[i as int]@,
                    g_row == self.g()[i as int],
                    j <= row@.len(),
                    s@ == mid + bodies_joined(self.terminals@, g_row.take(j as int)),
                decreases row@.len() - j,
            {
                if j > 0 {
                    s.append("| ");
                    proof {
                        reveal_strlit("| ");
                    }
                }
                let ghost before_body = s@;
                let b = &row[j];
                proof {
                    assert(g_row[j as int] == b@);
                }
                if b.len() == 0 {
                    s.append("\u{3b5} ");
                    proof {
                        reveal_strlit("\u{3b5} ");
                    }
                } else {
                    let mut k: usize = 0;
                    while k < b.len()
                        invariant
                            self.wf(),
                            i < self.productions@.len(),
                            row@ == self.productions@[i as int]@,
                            j < row@.len(),
                            b@ == row@[j as int]@,
                            k <= b@.len(),
                            s@ == before_body + body_text(self.terminals@, b@.take(k as int)),
                        decreases b@.len() - k,
                    {
                        proof {
                            assert(self.g()[i as int][j as int][k as int] == b@[k as int]);
                            assert(crate::cfg::cfg::symbol_in(self.g(), self.nt(), self.g()[i as int][j as int][k as int]));
                        }
                        match b[k] {
                            SymbolIndex::TerminalIndex(t) => {
                                s.append(self.terminals[t].get_name());
                            },
                            SymbolIndex::VariableIndex(v) => {
                                let var = self.get_variable_at(v);
                                s.append(var.get_name());
                            },
                        }
                        s.append(" ");
                        proof {
                            reveal_strlit(" ");
                            assert(b@.take(k + 1).drop_last() =~= b@.take(k as int));
                            assert(b@.take(k + 1).last() == b@[k as int]);
                        }
                        k = k + 1;
                    }
                    proof {
                        assert(b@.take(k as int) =~= b@);
                    }
                }
                proof {
                    let t = g_row.take(j + 1);
                    assert(t.drop_last() =~= g_row.take(j as int));
                    assert(t.last() == b@);
                    if j == 0 {
                        assert(g_row.take(0) =~= Seq::<Seq<SymbolIndex>>::empty());
                        assert(t[0] == b@);
                    }
                }
                j = j + 1;
            }
            s.append("\n");
            proof {
                reveal_strlit("\n");
                assert(g_row.take(j as int) =~= g_row);
                let t = self.g().take(i + 1);
                assert(t.drop_last() =~= self.g().take(i as int));
                assert(t.last() == g_row);
                assert(rows_text(self.terminals@, t) == rows_text(self.terminals@, self.g().take(i as int)) + row_text(self.terminals@, i as nat, g_row));
                assert(s@ =~= before + row_text(self.terminals@, i as nat, g_row));
            }
            i = i + 1;
        }
        s.append("Terminals: ");
        proof {
            reveal_strlit("Terminals: ");
            assert(self.g().take(i as int) =~= self.g());
        }
        let ghost before_terms = s@;
        let mut t: usize = 0;
        while t < self.terminals.len()
            invariant
                t <= self.terminals@.len(),
                s@ == before_terms + terminals_text(self.terminals@.take(t as int)),
            decreases self.terminals@.len() - t,
        {
            s.append(self.terminals[t].get_name());
            s.append(" ");
            proof {
                reveal_strlit(" ");
                assert(self.terminals@.take(t + 1).drop_last() =~= self.terminals@.take(t as int));
            }
            t = t + 1;
        }
        proof {
            assert(self.terminals@.take(t as int) =~= self.terminals@);
        }
        s
    }
}

} // verus!
