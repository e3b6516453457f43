//! Variables (non-terminals) of context-free grammars.
use vstd::prelude::*;

verus! {

/// A variable of a grammar, identified by its name.
#[derive(Debug, Hash, PartialEq, Eq, PartialOrd, Ord)]
pub struct Variable {
    pub name: String,
}

impl View for Variable {
    type V = Seq<char>;

    open spec fn view(&self) -> Seq<char> {
        self.name@
    }
}

impl Clone for Variable {
    fn clone(&self) -> (r: Self)
        ensures
            r == *self,
    {
        Variable { name: self.name.clone() }
    }
}

impl Variable {
    /// Creates a variable named `name`.
    pub fn new(name: &str) -> (v: Self)
        ensures
            v@ == name@,
    {
        Variable { name: name.to_owned() }
    }

    /// Creates a variable named `name`, taking the string.
    pub fn from_string(name: String) -> (v: Self)
        ensures
            v@ == name@,
    {
        Variable { name }
    }

    /// The name of the variable.
    pub fn get_name(&self) -> (n: &str)
        ensures
            n@ == self@,
    {
        self.name.as_str()
    }

    /// The variable shown as its name.
    pub fn display(&self) -> (s: String)
        ensures
            s@ == self@,
    {
        self.name.clone()
    }
}

} // verus!
