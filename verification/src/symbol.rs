//! The symbols from which rule bodies are made.
use vstd::prelude::*;
use crate::utils::NonEmptyHashSet;

verus! {

/// Valid symbols for a [`Rule`](crate::rule::Rule) body.
#[derive(Debug, Clone)]
pub enum Symbol {
    /// Succeeds if a rule with the given name succeeds.
    Rule(String),
    /// Succeeds if the next character of the input is the given character.
    Literal(char),
    /// Succeeds if the next character of the input is any member of the set.
    OneOf(NonEmptyHashSet),
}

/// What a [`Symbol`] stands for.
pub enum SymbolView {
    Rule(Seq<char>),
    Literal(char),
    OneOf(Set<char>),
}

impl SymbolView {
    /// A symbol is terminal when it does not refer to a rule.
    pub open spec fn is_terminal(self) -> bool {
        !(self is Rule)
    }

    /// The name of the rule that the symbol refers to, if it refers to one.
    pub open spec fn rule_name(self) -> Option<Seq<char>> {
        match self {
            SymbolView::Rule(name) => Some(name),
            _ => None,
        }
    }

    /// Whether the symbol, as a terminal, matches the character `c`. A
    /// reference to a rule matches no single character by itself.
    pub open spec fn accepts(self, c: char) -> bool {
        match self {
            SymbolView::Rule(_) => false,
            SymbolView::Literal(expected) => c == expected,
            SymbolView::OneOf(set) => set.contains(c),
        }
    }
}

impl View for Symbol {
    type V = SymbolView;

    open spec fn view(&self) -> SymbolView {
        match self {
            Symbol::Rule(name) => SymbolView::Rule(name@),
            Symbol::Literal(c) => SymbolView::Literal(*c),
            Symbol::OneOf(set) => SymbolView::OneOf(set@),
        }
    }
}

impl Symbol {
    /// True unless the symbol refers to a rule.
    pub fn is_terminal(&self) -> (terminal: bool)
        ensures
            terminal == self@.is_terminal(),
    {
        self.rule_name().is_none()
    }

    /// The name of the rule that the symbol refers to, if it refers to one.
    pub fn rule_name(&self) -> (name: Option<&String>)
        ensures
            name is Some == self@.rule_name() is Some,
            name matches Some(n) ==> self@.rule_name() == Some(n@),
    {
        match self {
            Symbol::Rule(name) => Some(name),
            Symbol::Literal(_) | Symbol::OneOf(_) => None,
        }
    }

    /// Whether the symbol is a terminal that matches the character `c`.
    pub fn accepts(&self, c: char) -> (matched: bool)
        ensures
            matched == self@.accepts(c),
    {
        match self {
            Symbol::Rule(_) => false,
            Symbol::Literal(expected) => c == *expected,
            Symbol::OneOf(set) => set.contains(c),
        }
    }
}

} // verus!
