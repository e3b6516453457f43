//! Languages: anything that can tell whether it accepts a word of symbols.
use crate::input_symbol::{bytes_word, char_to_symbol, InputSymbol};
use vstd::prelude::*;

verus! {

/// The word (sequence of symbol names) that a vector of symbols spells.
pub open spec fn word_of(input: Seq<InputSymbol>) -> Seq<Seq<char>> {
    input.map_values(|s: InputSymbol| s@)
}

/// The symbols that stand for the bytes of `input`, one per byte.
pub fn bytes_to_symbols(input: &[u8]) -> (v: Vec<InputSymbol>)
    ensures
        word_of(v@) == bytes_word(input@),
{
    let mut v: Vec<InputSymbol> = Vec::new();
    let mut i: usize = 0;
    while i < input.len()
        invariant
            i <= input@.len(),
            v@.len() == i,
            word_of(v@) == bytes_word(input@.take(i as int)),
        decreases input@.len() - i,
    {
        let ghost old_v = v@;
        let sym = char_to_symbol(input[i]);
        v.push(sym);
        assert(v@ == old_v.push(sym));
        assert forall|k: int| 0 <= k < i + 1 implies #[trigger] word_of(v@)[k] == bytes_word(input@.take(i + 1))[k] by {
            if k < i {
                assert(word_of(old_v)[k] == bytes_word(input@.take(i as int))[k]);
            }
        }
        assert(word_of(v@) =~= bytes_word(input@.take(i + 1)));
        i = i + 1;
    }
    assert(input@.take(i as int) =~= input@);
    v
}

/// A language over words of symbols.
pub trait Language {
    /// Whether the value is well formed, so that it can be asked about words.
    spec fn ready(&self) -> bool;

    /// The words of the language, by their symbols' names.
    spec fn language(&self, w: Seq<Seq<char>>) -> bool;

    /// Whether the language holds the word spelled by `input`.
    fn accepts(&self, input: &Vec<InputSymbol>) -> (r: bool)
        requires
            self.ready(),
        ensures
            r == self.language(word_of(input@)),
    ;

    /// Whether the language holds the word of the bytes of `input`, each
    /// byte read as the symbol that `char_to_symbol` gives.
    fn accepts_string(&self, input: &str) -> (r: bool)
        requires
            self.ready(),
        ensures
            r == self.language(bytes_word(vstd::utf8::encode_utf8(input@))),
    {
        let symbols = bytes_to_symbols(input.as_bytes());
        self.accepts(&symbols)
    }
}

/// A language whose membership test may update the value (for instance a cache).
pub trait MutLanguage {
    /// Whether the value is well formed, so that it can be asked about words.
    spec fn ready(&self) -> bool;

    /// The words of the language, by their symbols' names.
    spec fn language(&self, w: Seq<Seq<char>>) -> bool;

    /// Whether the language holds the word spelled by `input`.
    fn accepts(&mut self, input: &Vec<InputSymbol>) -> (r: bool)
        requires
            old(self).ready(),
        ensures
            final(self).ready(),
            final(self).language(word_of(input@)) == old(self).language(word_of(input@)),
            r == old(self).language(word_of(input@)),
    ;

    /// Whether the language holds the word of the bytes of `input`.
    fn accepts_string(&mut self, input: &str) -> (r: bool)
        requires
            old(self).ready(),
        ensures
            final(self).ready(),
            r == old(self).language(bytes_word(vstd::utf8::encode_utf8(input@))),
    {
        let symbols = bytes_to_symbols(input.as_bytes());
        self.accepts(&symbols)
    }
}

} // verus!
