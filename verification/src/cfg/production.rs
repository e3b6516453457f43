//! Productions of context-free grammars, by the names of their symbols.
use crate::cfg::terminal::Terminal;
use crate::cfg::variable::Variable;
use vstd::prelude::*;

verus! {

/// A symbol of a production body: a terminal or a variable.
#[derive(Debug, Hash, PartialEq, Eq)]
pub enum Symbol {
    T(Terminal),
    V(Variable),
}

impl Clone for Symbol {
    fn clone(&self) -> (r: Self)
        ensures
            r == *self,
    {
        match self {
            Symbol::T(t) => Symbol::T(t.clone()),
            Symbol::V(v) => Symbol::V(v.clone()),
        }
    }
}

impl Symbol {
    /// The name of the symbol.
    pub open spec fn name(&self) -> Seq<char> {
        match self {
            Symbol::T(t) => t@,
            Symbol::V(v) => v@,
        }
    }
}

/// A production `head -> body`.
#[derive(Debug, Hash, PartialEq, Eq)]
pub struct Production {
    pub head: Variable,
    pub body: Vec<Symbol>,
}

impl Clone for Production {
    fn clone(&self) -> (r: Self)
        ensures
            r.head == self.head,
            r.body@ == self.body@,
    {
        Production { head: self.head.clone(), body: clone_symbols(&self.body) }
    }
}

/// A copy of a sequence of symbols.
pub fn clone_symbols(v: &Vec<Symbol>) -> (r: Vec<Symbol>)
    ensures
        r@ == v@,
{
    let mut r: Vec<Symbol> = Vec::new();
    let mut i: usize = 0;
    while i < v.len()
        invariant
            i <= v@.len(),
            r@ == v@.take(i as int),
        decreases v@.len() - i,
    {
        r.push(v[i].clone());
        assert(v@.take(i + 1) =~= v@.take(i as int).push(v@[i as int]));
        i = i + 1;
    }
    assert(v@.take(i as int) =~= v@);
    r
}

/// The names in `names` with `sep` between each two of them.
pub open spec fn joined(names: Seq<Seq<char>>, sep: Seq<char>) -> Seq<char>
    decreases names.len(),
{
    if names.len() == 0 {
        Seq::empty()
    } else if names.len() == 1 {
        names[0]
    } else {
        joined(names.drop_last(), sep) + sep + names.last()
    }
}

/// The text of a production: the head's name, ` -> `, and the names of the
/// body's symbols separated by single spaces.
pub open spec fn production_text(head: Seq<char>, body: Seq<Symbol>) -> Seq<char> {
    head + seq![' ', '-', '>', ' '] + joined(body.map_values(|s: Symbol| s.name()), seq![' '])
}

impl Production {
    /// Creates the production `head -> body`.
    pub fn new(head: Variable, body: Vec<Symbol>) -> (p: Self)
        ensures
            p.head == head,
            p.body == body,
    {
        Production { head, body }
    }

    /// The production as text, as in `S -> A b`.
    pub fn display(&self) -> (s: String)
        ensures
            s@ == production_text(self.head@, self.body@),
    {
        let mut s = self.head.display();
        s.append(" -> ");
        proof {
            reveal_strlit(" -> ");
        }
        let ghost names = self.body@.map_values(|x: Symbol| x.name());
        let mut i: usize = 0;
        while i < self.body.len()
            invariant
                i <= self.body@.len(),
                names == self.body@.map_values(|x: Symbol| x.name()),
                s@ == self.head@ + seq![' ', '-', '>', ' '] + joined(names.take(i as int), seq![' ']),
            decreases self.body@.len() - i,
        {
            let name: &str = match &self.body[i] {
                Symbol::T(t) => t.get_name(),
                Symbol::V(v) => v.get_name(),
            };
            proof {
                reveal_strlit(" ");
            }
            if i > 0 {
                s.append(" ");
            }
            s.append(name);
            proof {
                let t = names.take(i + 1);
                assert(t.drop_last() =~= names.take(i as int));
                assert(t.last() == name@);
                if i == 0 {
                    assert(joined(names.take(0), seq![' ']) =~= Seq::<char>::empty());
                }
            }
            i = i + 1;
        }
        assert(names.take(i as int) =~= names);
        s
    }
}

} // verus!
