//! Symbols: the names that nodes carry, each with its arity.
use crate::abstractions::{interned_text, text_of, IString};
use vstd::prelude::*;

verus! {

/// A function symbol. It is immutable once made; nodes refer to it and take their
/// number of arguments from it.
#[derive(Copy, Clone)]
pub struct Symbol {
    pub name: IString,
    pub arity: u8,
}

/// A reference to a symbol that lives as long as the program.
pub type SymbolPtr = &'static Symbol;

impl Symbol {
    /// A symbol with the given name and arity.
    pub fn new(name: IString, arity: u8) -> (symbol: Symbol)
        ensures
            symbol.name == name,
            symbol.arity == arity,
    {
        Symbol { name, arity }
    }

    /// The symbol's name as text.
    pub fn text(&self) -> (text: String)
        ensures
            text@ == interned_text(self.name),
    {
        text_of(&self.name)
    }
}

} // verus!
