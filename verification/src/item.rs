//! Earley items.
use vstd::prelude::*;
use crate::chart::{
    after_item, chart_valid, completed, completions_upto, lemma_after_item, scanned, set_valid,
};
use crate::grammar::Grammar;
use crate::rule::RuleView;
use crate::stateset::{StateSet, StateSetView};
use crate::symbol::{Symbol, SymbolView};

verus! {

/// Where an item stands: the position of the input at which its rule began,
/// and the number of symbols of the rule's body that have been matched.
#[derive(Debug, Clone, Copy, PartialEq, Eq, Structural)]
pub struct State {
    pub start: usize,
    pub progress: usize,
}

/// An Earley item: a rule of the grammar, given by its index, and how far
/// the rule has been matched. Two items are equal when they refer to the
/// same rule of the grammar and stand at the same place.
#[derive(Debug, Clone, Copy, PartialEq, Eq, Structural)]
pub struct Item {
    pub rule: usize,
    pub state: State,
}

impl Item {
    /// The item refers to a rule of `rules`, began no later than position
    /// `pos`, and has matched no more symbols than the rule's body has.
    pub open spec fn valid(self, rules: Seq<RuleView>, pos: nat) -> bool {
        &&& self.rule < rules.len()
        &&& self.state.start <= pos
        &&& self.state.progress <= rules[self.rule as int].body.len()
    }

    /// An item is complete when its whole body has been matched.
    pub open spec fn complete_in(self, rules: Seq<RuleView>) -> bool {
        self.state.progress >= rules[self.rule as int].body.len()
    }

    /// The symbol behind the progress marker, if the item is not complete.
    pub open spec fn next_symbol(self, rules: Seq<RuleView>) -> Option<SymbolView> {
        if self.state.progress < rules[self.rule as int].body.len() {
            Some(rules[self.rule as int].body[self.state.progress as int])
        } else {
            None
        }
    }

    /// The name of the rule that the symbol behind the progress marker
    /// refers to, if there is such a symbol and it refers to a rule.
    pub open spec fn next_rule_name(self, rules: Seq<RuleView>) -> Option<Seq<char>> {
        match self.next_symbol(rules) {
            Some(symbol) => symbol.rule_name(),
            None => None,
        }
    }

    /// The same item with its progress marker one symbol further.
    pub open spec fn advanced_spec(self) -> Item {
        Item {
            rule: self.rule,
            state: State { start: self.state.start, progress: (self.state.progress + 1) as usize },
        }
    }
}

/// One item for each of the given rules, in their order, each beginning at
/// `start` with nothing matched.
pub open spec fn items_from(rules: Seq<usize>, start: usize) -> Seq<Item> {
    Seq::new(rules.len(), |i: int| Item { rule: rules[i], state: State { start, progress: 0 } })
}

/// The lists of items of a list of state sets.
pub open spec fn chart_items(sets: Seq<StateSet>) -> Seq<Seq<Item>> {
    Seq::new(sets.len(), |i: int| sets[i]@.items)
}

impl Item {
    /// Constructs one item for each of the given rules, each beginning at
    /// `start` with its progress marker at 0.
    pub fn from_rules(rules: Vec<usize>, start: usize) -> (items: Vec<Item>)
        ensures
            items@ == items_from(rules@, start),
    {
        let mut items: Vec<Item> = Vec::new();
        let mut i: usize = 0;
        while i < rules.len()
            invariant
                i <= rules.len(),
                items@ == items_from(rules@.take(i as int), start),
            decreases rules.len() - i,
        {
            items.push(Item { rule: rules[i], state: State { start, progress: 0 } });
            assert(items@ == items_from(rules@.take(i + 1), start));
            i += 1;
        }
        assert(rules@.take(rules@.len() as int) == rules@);
        items
    }

    /// Constructs an item from its parts.
    pub fn from_parts(rule: usize, start: usize, progress: usize) -> (item: Item)
        ensures
            item == (Item { rule, state: State { start, progress } }),
    {
        Item { rule, state: State { start, progress } }
    }

    /// The index of the rule that the item refers to.
    pub fn rule(&self) -> (rule: usize)
        ensures
            rule == self.rule,
    {
        self.rule
    }

    /// The position at which the item began.
    pub fn start(&self) -> (start: usize)
        ensures
            start == self.state.start,
    {
        self.state.start
    }

    /// The position at which the item began.
    pub fn starts_at(&self) -> (start: usize)
        ensures
            start == self.state.start,
    {
        self.state.start
    }

    /// The name of the rule that the item refers to.
    pub fn rule_name<'a>(&self, grammar: &'a Grammar) -> (name: &'a String)
        requires
            self.rule < grammar@.len(),
        ensures
            name@ == grammar@[self.rule as int].name,
    {
        grammar.index(self.rule).name()
    }

    /// True if the whole body of the rule has been matched.
    pub fn is_complete(&self, grammar: &Grammar) -> (complete: bool)
        requires
            self.rule < grammar@.len(),
        ensures
            complete == self.complete_in(grammar@),
    {
        self.state.progress >= grammar.index(self.rule).body().len()
    }

    /// If the symbol behind the progress marker refers to a rule, the name
    /// of that rule.
    pub fn next_name<'a>(&self, grammar: &'a Grammar) -> (name: Option<&'a String>)
        requires
            self.rule < grammar@.len(),
        ensures
            name is Some == self.next_rule_name(grammar@) is Some,
            name matches Some(n) ==> self.next_rule_name(grammar@) == Some(n@),
    {
        match grammar.index(self.rule).get(self.state.progress) {
            Some(symbol) => symbol.rule_name(),
            None => None,
        }
    }

    /// A copy of the item with its progress marker one symbol further.
    pub fn advanced(&self) -> (item: Item)
        requires
            self.state.progress < usize::MAX,
        ensures
            item == self.advanced_spec(),
    {
        Item {
            rule: self.rule,
            state: State { start: self.state.start, progress: self.state.progress + 1 },
        }
    }

    /// The scan of an item that waits for the terminal `symbol`: the item
    /// advanced over it, if the character of `input` at `pos` matches the
    /// symbol. Behind the end of the input nothing matches.
    pub fn scan(&self, symbol: &Symbol, input: &[char], pos: usize) -> (next: Option<Item>)
        requires
            self.state.progress < usize::MAX,
        ensures
            next == (if pos < input@.len() && symbol@.accepts(input@[pos as int]) {
                Some(self.advanced_spec())
            } else {
                None
            }),
    {
        if pos < input.len() && symbol.accepts(input[pos]) {
            Some(self.advanced())
        } else {
            None
        }
    }

    /// The completion step of a complete item: every item that waited for
    /// its rule, in the set in which it began, joins the current set,
    /// advanced over the rule. An item that began at the current position
    /// reads the current set itself.
    pub fn complete(&self, grammar: &Grammar, current_state: &mut StateSet, prev_state: &Vec<StateSet>)
        requires
            self.valid(grammar@, prev_state@.len()),
            chart_valid(grammar@, chart_items(prev_state@)),
            set_valid(grammar@, old(current_state)@.items, prev_state@.len()),
        ensures
            final(current_state)@ == (StateSetView {
                items: completed(
                    grammar@,
                    chart_items(prev_state@),
                    old(current_state)@.items,
                    *self,
                ),
                ..old(current_state)@
            }),
    {
        let completed_name = self.rule_name(grammar);
        let found = if self.state.start == prev_state.len() {
            Self::waiting_for(grammar, current_state.items(), completed_name, Ghost(prev_state@.len() as nat))
        } else {
            assert(chart_items(prev_state@)[self.state.start as int]
                == prev_state@[self.state.start as int]@.items);
            Self::waiting_for(
                grammar,
                prev_state[self.state.start].items(),
                completed_name,
                Ghost(self.state.start as nat),
            )
        };
        current_state.add(found);
    }

    /// The items of `source` that wait for the rule `name`, each advanced
    /// over it, in their order.
    fn waiting_for(grammar: &Grammar, source: &Vec<Item>, name: &String, Ghost(pos): Ghost<nat>) -> (found:
        Vec<Item>)
        requires
            forall|k: int| 0 <= k < source@.len() ==> (#[trigger] source@[k]).valid(grammar@, pos),
        ensures
            found@ == completions_upto(grammar@, source@, name@, source@.len()),
    {
        grammar.recall_validity();
        let mut found: Vec<Item> = Vec::new();
        let mut i: usize = 0;
        while i < source.len()
            invariant
                i <= source.len(),
                forall|k: int| 0 <= k < source@.len() ==> (#[trigger] source@[k]).valid(grammar@, pos),
                found@ == completions_upto(grammar@, source@, name@, i as nat),
                crate::grammar::valid_rules(grammar@),
            decreases source.len() - i,
        {
            let item = source[i];
            assert(item.valid(grammar@, pos));
            match item.next_name(grammar) {
                Some(next) => {
                    if *next == *name {
                        found.push(item.advanced());
                    }
                },
                None => {},
            }
            i += 1;
        }
        found
    }

    /// Performs the step of the Earley algorithm that the item calls for.
    /// Predictions and completions append to `current_state`. A scan
    /// returns the item that belongs in the next set, if the character at
    /// `current_position` matches.
    pub fn parse(
        &self,
        grammar: &Grammar,
        current_state: &mut StateSet,
        prev_state: &Vec<StateSet>,
        input: &[char],
        current_position: usize,
    ) -> (next: Option<Item>)
        requires
            current_position == prev_state@.len(),
            self.valid(grammar@, prev_state@.len()),
            chart_valid(grammar@, chart_items(prev_state@)),
            set_valid(grammar@, old(current_state)@.items, prev_state@.len()),
        ensures
            final(current_state)@ == (StateSetView {
                items: after_item(
                    grammar@,
                    chart_items(prev_state@),
                    old(current_state)@.items,
                    *self,
                ),
                ..old(current_state)@
            }),
            next == scanned(grammar@, *self, input@, prev_state@.len()),
            old(current_state)@.items.is_prefix_of(final(current_state)@.items),
            set_valid(grammar@, final(current_state)@.items, prev_state@.len()),
    {
        grammar.recall_validity();
        proof {
            lemma_after_item(grammar@, chart_items(prev_state@), current_state@.items, *self);
        }
        match grammar.index(self.rule).get(self.state.progress) {
            Some(symbol) => {
                match symbol {
                    Symbol::Rule(name) => {
                        current_state.add(
                            Item::from_rules(grammar.get_rules_by_name(name), current_position),
                        );
                        if grammar.rule_is_nullable(name) {
                            let mut closure: Vec<Item> = Vec::new();
                            closure.push(self.advanced());
                            assert(closure@ == seq![self.advanced_spec()]);
                            current_state.add(closure);
                        }
                        None
                    },
                    Symbol::Literal(_) | Symbol::OneOf(_) => self.scan(
                        symbol,
                        input,
                        current_position,
                    ),
                }
            },
            None => {
                self.complete(grammar, current_state, prev_state);
                None
            },
        }
    }
}

} // verus!
