use parsey::{build_parse_state, expand_input, holds_accepting, process_set, recognise};
use parsey::{Grammar, GrammarError, Item, NonEmptyHashSet, Rule, StateSet, Symbol};

fn reference(name: &str) -> Symbol {
    Symbol::Rule(String::from(name))
}

fn one_of(chars: &str) -> Symbol {
    Symbol::OneOf(NonEmptyHashSet::new(chars.chars().collect()).unwrap())
}

fn literal(text: &str) -> Vec<Symbol> {
    text.chars().map(Symbol::Literal).collect()
}

fn rule(name: &str, body: Vec<Symbol>) -> Rule {
    Rule::new(String::from(name), body).unwrap()
}

fn arith() -> Grammar {
    let mut factor = literal("(");
    factor.push(reference("Sum"));
    factor.extend(literal(")"));
    Grammar::new(vec![
        rule("Sum", vec![reference("Sum"), one_of("+-"), reference("Product")]),
        rule("Sum", vec![reference("Product")]),
        rule("Product", vec![reference("Product"), one_of("*/"), reference("Factor")]),
        rule("Product", vec![reference("Factor")]),
        rule("Factor", factor),
        rule("Factor", vec![reference("Number")]),
        rule("Number", vec![one_of("0123456789"), reference("Number")]),
        rule("Number", vec![one_of("0123456789")]),
    ])
    .unwrap()
}

fn empty() -> Grammar {
    Grammar::new(vec![rule("Empty", vec![])]).unwrap()
}

fn almost_empty() -> Grammar {
    let mut body = literal("Rule");
    body.push(reference("Empty"));
    Grammar::new(vec![rule("Rule", body), rule("Empty", vec![])]).unwrap()
}

fn looping() -> Grammar {
    Grammar::new(vec![
        rule("A", vec![]),
        rule("A", vec![reference("B")]),
        rule("B", vec![reference("A")]),
    ])
    .unwrap()
}

fn items_named(grammar: &Grammar, name: &str, start: usize, progress: usize) -> Vec<Item> {
    grammar
        .get_rules_by_name(&String::from(name))
        .into_iter()
        .map(|rule| Item::from_parts(rule, start, progress))
        .collect()
}

fn item(idx: usize, start: usize, progress: usize) -> Vec<Item> {
    vec![Item::from_parts(idx, start, progress)]
}

fn set(parts: Vec<Vec<Item>>) -> StateSet {
    StateSet::exhausted(parts.into_iter().flatten().collect())
}

fn chart(grammar: &Grammar, input: &str) -> Result<Vec<StateSet>, Vec<char>> {
    let input = expand_input(input);
    build_parse_state(grammar.start_symbol(), grammar, &input).map_err(|rest| rest.to_vec())
}

#[test]
fn recognise_success() {
    assert!(recognise(&arith(), "1+2+3-4+5*(6+7)/106"));
}

#[test]
fn recognise_truncated_input() {
    assert!(!recognise(&arith(), "1+"));
}

#[test]
fn recognise_invalid_character() {
    assert!(!recognise(&arith(), "1%2"));
}

#[test]
fn recognise_valid_character_in_the_wrong_place() {
    assert!(!recognise(&arith(), "+1"));
}

#[test]
fn recognise_empty_success() {
    assert!(recognise(&empty(), ""));
}

#[test]
fn recognise_empty_fail() {
    assert!(!recognise(&empty(), " "));
}

#[test]
fn recognise_almost_empty() {
    assert!(recognise(&almost_empty(), "Rule"));
}

#[test]
fn recognise_loop() {
    assert!(recognise(&looping(), ""));
}

#[test]
fn recognise_is_repeatable() {
    let grammar = arith();
    for input in ["1+2", "1+", "(1)", "", "12*(3-4)"] {
        assert_eq!(recognise(&grammar, input), recognise(&grammar, input));
    }
    assert!(recognise(&grammar, "12*(3-4)"));
    assert!(!recognise(&grammar, ""));
}

#[test]
fn expand_input_gives_the_characters() {
    assert_eq!(expand_input("a+é"), vec!['a', '+', 'é']);
    assert_eq!(expand_input(""), Vec::<char>::new());
}

#[test]
fn chart_success() {
    let g = arith();
    assert_eq!(
        chart(&g, "1+2"),
        Ok(vec![
            set(vec![
                items_named(&g, "Sum", 0, 0),
                items_named(&g, "Product", 0, 0),
                items_named(&g, "Factor", 0, 0),
                items_named(&g, "Number", 0, 0),
            ]),
            set(vec![
                items_named(&g, "Number", 0, 1),
                items_named(&g, "Number", 1, 0),
                item(5, 0, 1),
                item(3, 0, 1),
                item(1, 0, 1),
                item(2, 0, 1),
                item(0, 0, 1),
            ]),
            set(vec![
                item(0, 0, 2),
                items_named(&g, "Product", 2, 0),
                items_named(&g, "Factor", 2, 0),
                items_named(&g, "Number", 2, 0),
            ]),
            set(vec![
                items_named(&g, "Number", 2, 1),
                items_named(&g, "Number", 3, 0),
                item(5, 2, 1),
                item(3, 2, 1),
                item(0, 0, 3),
                item(2, 2, 1),
                item(0, 0, 1),
            ]),
        ])
    );
}

#[test]
fn chart_truncated_input() {
    let g = arith();
    let sets = chart(&g, "1+").unwrap();
    assert_eq!(sets.len(), 3);
    assert_eq!(
        sets[2],
        set(vec![
            item(0, 0, 2),
            items_named(&g, "Product", 2, 0),
            items_named(&g, "Factor", 2, 0),
            items_named(&g, "Number", 2, 0),
        ])
    );
}

#[test]
fn chart_invalid_character() {
    assert_eq!(chart(&arith(), "1%2"), Err(vec!['%', '2']));
}

#[test]
fn chart_valid_character_in_the_wrong_place() {
    assert_eq!(chart(&arith(), "+1"), Err(vec!['+', '1']));
}

#[test]
fn chart_empty_grammar_completes_in_place() {
    let g = empty();
    assert_eq!(chart(&g, ""), Ok(vec![set(vec![item(0, 0, 0)])]));
    assert_eq!(chart(&g, " "), Err(vec![' ']));
}

#[test]
fn chart_almost_empty_closes_the_prediction() {
    let g = almost_empty();
    let sets = chart(&g, "Rule").unwrap();
    assert_eq!(sets.len(), 5);
    assert_eq!(sets[4], set(vec![item(0, 0, 4), item(1, 4, 0), item(0, 0, 5)]));
}

#[test]
fn chart_loop_grammar_is_finite() {
    let g = looping();
    assert_eq!(
        chart(&g, ""),
        Ok(vec![set(vec![
            items_named(&g, "A", 0, 0),
            items_named(&g, "B", 0, 0),
            item(1, 0, 1),
            items_named(&g, "B", 0, 1),
        ])])
    );
}

#[test]
fn chart_start_set_is_seeded_in_grammar_order() {
    let g = arith();
    let sets = chart(&g, "1").unwrap();
    let first = sets[0].items();
    assert_eq!(first[0], Item::from_parts(0, 0, 0));
    assert_eq!(first[1], Item::from_parts(1, 0, 0));
    let seeds = first
        .iter()
        .filter(|i| i.rule_name(&g) == "Sum" && i.state.progress == 0)
        .count();
    assert_eq!(seeds, 2);
}

#[test]
fn chart_sets_only_grow() {
    let g = arith();
    let input = expand_input("1");
    let mut current = StateSet::new(Item::from_rules(g.get_rules_by_name(g.start_symbol()), 0));
    let prev: Vec<StateSet> = Vec::new();
    let mut seen: Vec<Item> = current.items().clone();
    while let Some(next) = current.next() {
        let _ = next.parse(&g, &mut current, &prev, &input, 0);
        assert_eq!(&current.items()[..seen.len()], &seen[..]);
        seen = current.items().clone();
    }
    assert_eq!(seen.len(), 8);
}

#[test]
fn grammar_errors() {
    assert_eq!(Grammar::new(vec![]).err(), Some(GrammarError::EmptyGrammar));
    assert_eq!(
        Rule::new(String::from("@reserved"), vec![]).err(),
        Some(GrammarError::ReservedName)
    );
    assert_eq!(
        NonEmptyHashSet::new(vec![]).err(),
        Some(GrammarError::EmptyCharacterSet)
    );
    assert!(Rule::new(String::from("a@"), vec![]).is_ok());
    assert!(Rule::new(String::new(), vec![]).is_ok());
}

#[test]
fn process_set_runs_the_cursor_to_the_end() {
    let g = arith();
    let input = expand_input("1");
    let mut current = StateSet::new(Item::from_rules(g.get_rules_by_name(g.start_symbol()), 0));
    let scans = process_set(&g, &mut current, &Vec::new(), &input, 0);
    assert_eq!(scans, vec![Item::from_parts(6, 0, 1), Item::from_parts(7, 0, 1)]);
    assert_eq!(
        current,
        set(vec![
            items_named(&g, "Sum", 0, 0),
            items_named(&g, "Product", 0, 0),
            items_named(&g, "Factor", 0, 0),
            items_named(&g, "Number", 0, 0),
        ])
    );
}

#[test]
fn accepting_items_are_complete_start_items_from_position_0() {
    let g = arith();
    let start = g.start_symbol();
    assert!(holds_accepting(&g, start, &vec![Item::from_parts(3, 0, 1), Item::from_parts(1, 0, 1)]));
    assert!(holds_accepting(&g, start, &item(0, 0, 3)));
    assert!(!holds_accepting(&g, start, &item(0, 0, 2)));
    assert!(!holds_accepting(&g, start, &item(1, 1, 1)));
    assert!(!holds_accepting(&g, start, &item(3, 0, 1)));
    assert!(!holds_accepting(&g, start, &item(99, 0, 0)));
    assert!(!holds_accepting(&g, start, &vec![]));
}
