//! States of finite automata.
use vstd::prelude::*;

verus! {

/// A state of a finite automaton, identified by its name.
#[derive(Debug, Hash, PartialEq, Eq, PartialOrd, Ord)]
pub struct State {
    pub name: String,
}

impl View for State {
    type V = Seq<char>;

    open spec fn view(&self) -> Seq<char> {
        self.name@
    }
}

impl Clone for State {
    fn clone(&self) -> (r: Self)
        ensures
            r == *self,
    {
        State { name: self.name.clone() }
    }
}

impl State {
    /// Creates a state named `name`.
    pub fn new(name: &str) -> (s: Self)
        ensures
            s@ == name@,
    {
        State { name: name.to_owned() }
    }

    /// Creates a state named `name`, taking the string.
    pub fn from_string(name: String) -> (s: Self)
        ensures
            s@ == name@,
    {
        State { name }
    }

    /// The name of the state.
    pub fn get_name(&self) -> (n: &str)
        ensures
            n@ == self@,
    {
        self.name.as_str()
    }

    /// The state shown as its name.
    pub fn display(&self) -> (s: String)
        ensures
            s@ == self@,
    {
        self.name.clone()
    }
}

/// A copy of a list of states.
pub fn clone_states(v: &Vec<State>) -> (r: Vec<State>)
    ensures
        r@ == v@,
{
    let mut r: Vec<State> = Vec::new();
    let mut i: usize = 0;
    while i < v.len()
        invariant
            i <= v@.len(),
            r@ == v@.take(i as int),
        decreases v@.len() - i,
    {
        r.push(v[i].clone());
        i = i + 1;
        assert(r@ =~= v@.take(i as int));
    }
    assert(v@.take(v@.len() as int) =~= v@);
    r
}

} // verus!
