//! Earley recogniser and parse-tree enumerator for context-free grammars
//! whose terminals are single characters.
use vstd::prelude::*;
use vstd::slice::slice_subrange;
use vstd::std_specs::iter::IteratorSpec;

pub mod ast;
pub mod chart;
pub mod grammar;
pub mod item;
pub mod rule;
pub mod search;
pub mod stateset;
pub mod symbol;
pub mod utils;

pub use ast::{Node, Step, Trees};
pub use grammar::Grammar;
pub use item::{Item, State};
pub use rule::Rule;
pub use stateset::StateSet;
pub use symbol::Symbol;
pub use utils::GrammarError;
pub use utils::NonEmptyHashSet;

use ast::{
    is_candidate, lemma_matching_holds, lemma_matching_members, lemma_row_holds, lemma_row_members,
    matching_from, transposed, transposed_row, Completed,
};
use chart::{
    accepting, chart_from, chart_of, chart_valid, lemma_process, lemma_set_bounded,
    lemma_start_set_seeding, process, recognised, set_valid, universe, ChartOutcome, Processed,
};
use grammar::valid_rules;
use item::chart_items;
use search::Search;
use stateset::StateSetView;
use utils::Uncertain;

verus! {

/// The characters of a string, in order.
pub fn expand_input(input: &str) -> (chars: Vec<char>)
    ensures
        chars@ == input@,
{
    broadcast use {vstd::string::next_postcondition, vstd::string::axiom_spec_iter};

    let mut chars: Vec<char> = Vec::new();
    let mut rest = input.chars();
    loop
        invariant
            rest.obeys_prophetic_iter_laws(),
            chars@ + rest.remaining() == input@,
        decreases input@.len() - chars@.len(),
    {
        match rest.next() {
            Some(c) => {
                chars.push(c);
                assert(chars@ + rest.remaining() =~= input@);
            },
            None => {
                assert(chars@ =~= input@);
                return chars;
            },
        }
    }
}

/// Runs the cursor of `current_state` to its end: each item that it yields
/// is processed, which may append items that the cursor then reaches too.
/// Returns the items that the scans hand to the set of the next position.
pub fn process_set(
    grammar: &Grammar,
    current_state: &mut StateSet,
    prev_state: &Vec<StateSet>,
    input: &[char],
    current_position: usize,
) -> (to_add: Vec<Item>)
    requires
        current_position == prev_state@.len(),
        chart_valid(grammar@, chart_items(prev_state@)),
        set_valid(grammar@, old(current_state)@.items, prev_state@.len()),
        old(current_state)@.cursor <= old(current_state)@.items.len(),
        !old(current_state)@.exhausted,
    ensures
        ({
            let done = process(
                grammar@,
                chart_items(prev_state@),
                old(current_state)@.items,
                old(current_state)@.cursor,
                Seq::empty(),
                input@,
            );
            &&& final(current_state)@ == (StateSetView {
                items: done.items,
                cursor: done.items.len(),
                exhausted: true,
            })
            &&& to_add@ == done.scans
        }),
{
    let ghost rules = grammar@;
    let ghost earlier = chart_items(prev_state@);
    let ghost target = process(
        rules,
        earlier,
        current_state@.items,
        current_state@.cursor,
        Seq::empty(),
        input@,
    );
    let mut to_add: Vec<Item> = Vec::new();
    loop
        invariant
            rules == grammar@,
            earlier == chart_items(prev_state@),
            current_position == prev_state@.len(),
            chart_valid(rules, earlier),
            set_valid(rules, current_state@.items, earlier.len()),
            current_state@.cursor <= current_state@.items.len(),
            !current_state@.exhausted,
            target == process(
                rules,
                earlier,
                old(current_state)@.items,
                old(current_state)@.cursor,
                Seq::empty(),
                input@,
            ),
            process(rules, earlier, current_state@.items, current_state@.cursor, to_add@, input@)
                == target,
        decreases universe(rules, earlier.len()) - current_state@.cursor,
    {
        proof {
            lemma_set_bounded(rules, current_state@.items, earlier.len());
        }
        let ghost before = current_state@;
        match current_state.next() {
            None => {
                assert(target == Processed { items: before.items, scans: to_add@ });
                return to_add;
            },
            Some(item) => {
                assert(item.valid(rules, earlier.len()));
                match item.parse(grammar, current_state, prev_state, input, current_position) {
                    Some(next) => {
                        to_add.push(next);
                    },
                    None => {},
                }
            },
        }
    }
}

/// Builds the Earley chart of `input`: one state set for each position from
/// 0 to the length of the input. Fails, with the part of the input that was
/// not consumed, when at some position before the end no item could scan the
/// next character.
pub fn build_parse_state<'a>(start_symbol: &String, grammar: &Grammar, input: &'a [char]) -> (result:
    Result<Vec<StateSet>, &'a [char]>)
    ensures
        match chart_of(grammar@, start_symbol@, input@) {
            ChartOutcome::Complete(chart) => {
                &&& result matches Ok(sets)
                &&& chart_items(sets@) == chart
                &&& sets@.len() == input@.len() + 1
                &&& forall|i: int|
                    0 <= i < sets@.len() ==> (#[trigger] sets@[i])@.exhausted && sets@[i]@.cursor
                        == sets@[i]@.items.len()
            },
            ChartOutcome::Stuck(pos) => {
                &&& result matches Err(rest)
                &&& pos < input@.len()
                &&& rest@ == input@.subrange(pos as int, input@.len() as int)
            },
        },
{
    grammar.recall_validity();
    let length = input.len();
    proof {
        lemma_start_set_seeding(grammar@, start_symbol@, input@);
    }
    let mut parse_state: Vec<StateSet> = Vec::new();
    let mut current_state = StateSet::new(
        Item::from_rules(grammar.get_rules_by_name(start_symbol), 0),
    );
    let mut current_position: usize = 0;
    assert(chart_items(parse_state@) == Seq::<Seq<Item>>::empty());
    loop
        invariant
            valid_rules(grammar@),
            length == input@.len(),
            current_position == parse_state@.len(),
            current_position <= input@.len(),
            chart_valid(grammar@, chart_items(parse_state@)),
            set_valid(grammar@, current_state@.items, parse_state@.len()),
            current_state@.cursor == 0,
            !current_state@.exhausted,
            chart_from(grammar@, input@, chart_items(parse_state@), current_state@.items)
                == chart_of(grammar@, start_symbol@, input@),
            forall|i: int|
                0 <= i < parse_state@.len() ==> (#[trigger] parse_state@[i])@.exhausted
                    && parse_state@[i]@.cursor == parse_state@[i]@.items.len(),
        decreases input@.len() - current_position,
    {
        let ghost earlier = chart_items(parse_state@);
        let ghost begun = current_state@.items;
        proof {
            lemma_process(grammar@, earlier, begun, 0, Seq::empty(), input@);
        }
        let to_add = process_set(grammar, &mut current_state, &parse_state, input, current_position);
        let ghost done = current_state@.items;
        parse_state.push(current_state);
        proof {
            assert(chart_items(parse_state@) == earlier.push(done));
            assert forall|i: int| 0 <= i < parse_state@.len() implies set_valid(
                grammar@,
                #[trigger] chart_items(parse_state@)[i],
                i as nat,
            ) by {
                if i < earlier.len() {
                    assert(chart_items(parse_state@)[i] == earlier[i]);
                }
            }
        }
        if current_position >= length {
            return Ok(parse_state);
        }
        if to_add.len() == 0 {
            return Err(slice_subrange(input, current_position, length));
        }
        current_state = StateSet::new(to_add);
        current_position += 1;
    }
}

/// True if `items` holds an accepting item: one that is complete, began at
/// position 0 and belongs to a rule called `start_symbol`.
pub fn holds_accepting(grammar: &Grammar, start_symbol: &String, items: &Vec<Item>) -> (found: bool)
    ensures
        found == exists|k: int|
            0 <= k < items@.len() && accepting(grammar@, start_symbol@, #[trigger] items@[k]),
{
    let rule_count = grammar.len();
    let mut i: usize = 0;
    while i < items.len()
        invariant
            i <= items.len(),
            rule_count == grammar@.len(),
            forall|k: int| 0 <= k < i ==> !accepting(grammar@, start_symbol@, #[trigger] items@[k]),
        decreases items.len() - i,
    {
        let item = items[i];
        if item.rule() < rule_count {
            if *item.rule_name(grammar) == *start_symbol && item.start() == 0 && item.is_complete(
                grammar,
            ) {
                return true;
            }
        }
        i += 1;
    }
    false
}

/// Returns `true` if the input string is in the language that the chart of
/// `grammar` accepts, `false` otherwise.
pub fn recognise(grammar: &Grammar, input: &str) -> (accepted: bool)
    ensures
        accepted == recognised(grammar@, input@),
{
    let input = expand_input(input);
    let start_symbol = grammar.start_symbol();
    match build_parse_state(start_symbol, grammar, input.as_slice()) {
        Ok(parse_state) => {
            let last = &parse_state[parse_state.len() - 1];
            assert(chart_items(parse_state@).last() == last@.items);
            holds_accepting(grammar, start_symbol, last.items())
        },
        Err(_) => false,
    }
}

/// The parse trees of `input`, as a lazy sequence: the chart is built at
/// once, and each tree is searched for when it is asked for.
///
/// The candidates for the root are the complete items of the last set of the
/// chart that began at position 0 and belong to a rule called after the
/// start symbol, in the order of the chart. There is such a candidate
/// exactly when the input is recognised; when it is not, the sequence is
/// empty.
pub fn parse<'a>(grammar: &'a Grammar, input: &str) -> (trees: Trees<'a>)
    ensures
        trees.wf(),
        trees.rules() == grammar@,
        trees.text() == input@,
        trees.symbol() == grammar@[0].name,
        trees.table() == (match chart_of(grammar@, grammar@[0].name, input@) {
            ChartOutcome::Complete(chart) => transposed(grammar@, chart),
            ChartOutcome::Stuck(_) => Seq::empty(),
        }),
        trees.state() == Search::fresh(
            grammar@,
            trees.table(),
            grammar@[0].name,
            0,
            Uncertain::Known(input@.len() as usize),
        ),
        trees.from_chart(),
        recognised(grammar@, input@) <==> trees.candidates().len() > 0,
        trees.candidates() == (match chart_of(grammar@, grammar@[0].name, input@) {
            ChartOutcome::Complete(chart) => matching_from(
                grammar@,
                transposed_row(grammar@, chart, 0, chart.len()),
                grammar@[0].name,
                Uncertain::Known(input@.len() as usize),
                0,
            ),
            ChartOutcome::Stuck(_) => Seq::empty(),
        }),
{
    let input = expand_input(input);
    let start_symbol = grammar.start_symbol();
    let length = input.len();
    let parse_state = match build_parse_state(start_symbol, grammar, input.as_slice()) {
        Ok(parse_state) => parse_state,
        Err(_) => Vec::new(),
    };
    proof {
        if parse_state@.len() > 0 {
            assert(parse_state@.len() == parse_state.len());
            let rules = grammar@;
            let chart = chart_items(parse_state@);
            let row = transposed_row(rules, chart, 0, parse_state@.len());
            let goal = Uncertain::Known(length);
            let found = matching_from(rules, row, start_symbol@, goal, 0);
            lemma_matching_members(rules, row, start_symbol@, goal, 0);
            lemma_row_members(rules, chart, 0, parse_state@.len());
            if found.len() > 0 {
                let entry = found[0];
                assert(row.contains(entry));
                let j = choose|j: int| 0 <= j < row.len() && row[j] == entry;
                assert(row[j].end == length);
                let k = choose|k: int|
                    0 <= k < chart[entry.end as int].len() && (#[trigger] chart[entry.end as int][k]).rule
                        == entry.rule && chart[entry.end as int][k].rule < rules.len()
                        && chart[entry.end as int][k].state.start == 0
                        && chart[entry.end as int][k].complete_in(rules);
                assert(accepting(rules, start_symbol@, chart.last()[k]));
                assert(recognised(rules, input@));
            }
            if recognised(rules, input@) {
                let last = chart.last();
                let k = choose|k: int|
                    0 <= k < last.len() && accepting(rules, start_symbol@, #[trigger] last[k]);
                let entry = Completed { rule: last[k].rule, end: length };
                lemma_row_holds(rules, chart, 0, parse_state@.len(), length as int, k);
                let j = choose|j: int| 0 <= j < row.len() && row[j] == entry;
                assert(is_candidate(rules, row[j], start_symbol@, goal));
                lemma_matching_holds(rules, row, start_symbol@, goal, 0, j);
            }
        }
    }
    Node::from_parse_state(start_symbol, grammar, &parse_state, input)
}

} // verus!
