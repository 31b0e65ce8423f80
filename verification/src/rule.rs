//! Grammar rules and their local nullability.
use vstd::prelude::*;
use vstd::string::StrSliceExecFns;
use crate::symbol::{Symbol, SymbolView};
use crate::utils::GrammarError;

verus! {

/// A named production with an ordered body of symbols.
#[derive(Debug, Clone)]
pub struct Rule {
    name: String,
    body: Vec<Symbol>,
}

/// What a [`Rule`] stands for: its name and the views of its body's symbols.
pub struct RuleView {
    pub name: Seq<char>,
    pub body: Seq<SymbolView>,
}

/// Names that begin with `@` are reserved.
pub open spec fn is_reserved(name: Seq<char>) -> bool {
    name.len() > 0 && name[0] == '@'
}

/// The set of the names in a list.
pub open spec fn name_set(names: Seq<String>) -> Set<Seq<char>> {
    Set::new(|name: Seq<char>| exists|i: int| 0 <= i < names.len() && (#[trigger] names[i])@ == name)
}

/// A rule is nullable, given the names already known to be nullable, when
/// every symbol of its body refers either to one of those names or to the
/// rule itself. This holds of every rule with an empty body, and of no rule
/// with a terminal in its body.
pub open spec fn locally_nullable(rule: RuleView, nullable: Set<Seq<char>>) -> bool {
    forall|i: int|
        0 <= i < rule.body.len() ==> match #[trigger] rule.body[i] {
            SymbolView::Rule(name) => name == rule.name || nullable.contains(name),
            _ => false,
        }
}

/// True if `name` occurs in `names`.
pub fn names_contain(names: &Vec<String>, name: &String) -> (found: bool)
    ensures
        found == name_set(names@).contains(name@),
{
    let mut i: usize = 0;
    while i < names.len()
        invariant
            i <= names.len(),
            forall|k: int| 0 <= k < i ==> (#[trigger] names@[k])@ != name@,
        decreases names.len() - i,
    {
        if names[i] == *name {
            return true;
        }
        i += 1;
    }
    false
}

impl View for Rule {
    type V = RuleView;

    closed spec fn view(&self) -> RuleView {
        RuleView { name: self.name@, body: Seq::new(self.body@.len(), |i: int| self.body@[i]@) }
    }
}

impl Rule {
    /// Constructs a rule with the given name and body.
    ///
    /// Fails with [`GrammarError::ReservedName`] exactly when the name begins
    /// with `@`.
    pub fn new(name: String, body: Vec<Symbol>) -> (result: Result<Rule, GrammarError>)
        ensures
            is_reserved(name@) <==> result is Err,
            result matches Err(e) ==> e == GrammarError::ReservedName,
            result matches Ok(rule) ==> rule@.name == name@ && rule@.body == Seq::new(
                body@.len(),
                |i: int| body@[i]@,
            ),
    {
        if name.as_str().unicode_len() > 0 && name.as_str().get_char(0) == '@' {
            return Err(GrammarError::ReservedName);
        }
        Ok(Rule { name, body })
    }

    /// The name of the rule.
    pub fn name(&self) -> (name: &String)
        ensures
            name@ == self@.name,
    {
        &self.name
    }

    /// The symbols of the body, in order.
    pub fn body(&self) -> (body: &Vec<Symbol>)
        ensures
            body@.len() == self@.body.len(),
            forall|i: int| 0 <= i < body@.len() ==> (#[trigger] body@[i])@ == self@.body[i],
    {
        &self.body
    }

    /// The symbol at `index` of the body, if the body is that long.
    pub fn get(&self, index: usize) -> (symbol: Option<&Symbol>)
        ensures
            symbol is Some <==> index < self@.body.len(),
            symbol matches Some(s) ==> s@ == self@.body[index as int],
    {
        if index < self.body.len() {
            Some(&self.body[index])
        } else {
            None
        }
    }

    /// Decides whether the rule is nullable, given the names of the rules
    /// already known to be nullable.
    pub fn is_nullable(&self, nullable_symbols: &Vec<String>) -> (nullable: bool)
        ensures
            nullable == locally_nullable(self@, name_set(nullable_symbols@)),
    {
        let mut i: usize = 0;
        while i < self.body.len()
            invariant
                i <= self.body.len(),
                forall|k: int|
                    0 <= k < i ==> match #[trigger] self@.body[k] {
                        SymbolView::Rule(name) => name == self@.name || name_set(
                            nullable_symbols@,
                        ).contains(name),
                        _ => false,
                    },
            decreases self.body.len() - i,
        {
            match &self.body[i] {
                Symbol::Rule(name) => {
                    if !(*name == self.name) && !names_contain(nullable_symbols, name) {
                        assert(self@.body[i as int] == SymbolView::Rule(name@));
                        return false;
                    }
                    assert(self@.body[i as int] == SymbolView::Rule(name@));
                },
                _ => {
                    assert(self@.body[i as int].is_terminal());
                    return false;
                },
            }
            i += 1;
        }
        true
    }
}

} // verus!
