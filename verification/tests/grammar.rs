use parsey::ast::lowerbound_length;
use parsey::grammar::find_nullable_rules;
use parsey::{Grammar, GrammarError, Item, NonEmptyHashSet, Rule, State, StateSet, Symbol};

fn reference(name: &str) -> Symbol {
    Symbol::Rule(String::from(name))
}

fn one_of(chars: &str) -> Symbol {
    Symbol::OneOf(NonEmptyHashSet::new(chars.chars().collect()).unwrap())
}

fn literal(text: &str) -> Vec<Symbol> {
    text.chars().map(Symbol::Literal).collect()
}

fn rule(name: &str, body: Vec<Symbol>) -> Rule {
    Rule::new(String::from(name), body).unwrap()
}

fn names(list: &[&str]) -> Vec<String> {
    list.iter().map(|s| String::from(*s)).collect()
}

fn nullability() -> Grammar {
    let mut not_nullable = vec![reference("Literal"), reference("TriviallyNullable")];
    not_nullable.push(reference("OneOf"));
    Grammar::new(vec![
        rule("TriviallyNullable", vec![]),
        rule(
            "OnlyUsesNullableRules",
            vec![reference("TriviallyNullable"), reference("TriviallyNullable")],
        ),
        rule(
            "RecursivelyNullable",
            vec![reference("OnlyUsesNullableRules"), reference("RecursivelyNullable")],
        ),
        rule("Literal", literal("Literal")),
        rule("OneOf", vec![one_of("abcde")]),
        rule("NotNullable", not_nullable),
    ])
    .unwrap()
}

#[test]
fn empty_rules() {
    assert_eq!(Grammar::new(vec![]).err(), Some(GrammarError::EmptyGrammar));
}

#[test]
fn non_empty_rules() {
    let g = Grammar::new(vec![rule("Test", vec![])]).unwrap();
    assert_eq!(g.len(), 1);
    assert_eq!(g.start_symbol(), "Test");
    assert_eq!(g.nullable_names(), &names(&["Test"]));
}

#[test]
fn reserved_name() {
    assert_eq!(
        Rule::new(String::from("@reserved"), vec![]).err(),
        Some(GrammarError::ReservedName)
    );
    assert_eq!(
        Rule::new(String::from("@"), literal("x")).err(),
        Some(GrammarError::ReservedName)
    );
}

#[test]
fn valid_rule() {
    let r = rule("Rule", vec![]);
    assert_eq!(r.name(), "Rule");
    assert!(r.body().is_empty());
    assert!(r.get(0).is_none());
}

#[test]
fn rule_get_gives_the_symbol() {
    let r = rule("Rule", vec![Symbol::Literal('x'), reference("Other")]);
    assert!(matches!(r.get(0), Some(Symbol::Literal('x'))));
    assert_eq!(r.get(1).and_then(Symbol::rule_name), Some(&String::from("Other")));
    assert!(r.get(2).is_none());
}

#[test]
fn empty_character_set() {
    assert_eq!(NonEmptyHashSet::new(vec![]).err(), Some(GrammarError::EmptyCharacterSet));
}

#[test]
fn character_set_holds_each_member_once() {
    let set = NonEmptyHashSet::new("oneof".chars().collect()).unwrap();
    assert_eq!(set.members(), &vec!['o', 'n', 'e', 'f']);
    assert!(set.contains('f'));
    assert!(!set.contains('x'));
    assert!(set.clone().contains('o'));
}

#[test]
fn symbol_kinds() {
    assert!(!reference("Rule").is_terminal());
    assert!(Symbol::Literal('1').is_terminal());
    assert!(one_of("12345").is_terminal());
    assert_eq!(reference("Rule").rule_name(), Some(&String::from("Rule")));
    assert_eq!(Symbol::Literal('1').rule_name(), None);
    assert_eq!(one_of("12").rule_name(), None);
}

#[test]
fn symbol_accepts() {
    assert!(Symbol::Literal('1').accepts('1'));
    assert!(!Symbol::Literal('1').accepts('2'));
    assert!(one_of("+-").accepts('-'));
    assert!(!one_of("+-").accepts('*'));
    assert!(!reference("a").accepts('a'));
}

#[test]
fn trivially_nullable_rule() {
    assert!(rule("Rule", vec![]).is_nullable(&vec![]));
}

#[test]
fn literal_is_not_nullable() {
    assert!(!rule("Rule", literal("x")).is_nullable(&vec![]));
}

#[test]
fn oneof_is_not_nullable() {
    assert!(!rule("Rule", vec![one_of("x")]).is_nullable(&vec![]));
}

#[test]
fn transitively_nullable_rule() {
    assert!(rule("Rule", vec![reference("Rule2")]).is_nullable(&names(&["Rule2"])));
}

#[test]
fn transitively_non_nullable_rule() {
    assert!(!rule("Rule", vec![reference("Rule2")]).is_nullable(&vec![]));
}

#[test]
fn recursivley_nullable_rules() {
    assert!(rule("Rule", vec![reference("Rule")]).is_nullable(&vec![]));
}

#[test]
fn mixed_body_is_not_nullable() {
    let r = rule("Rule", vec![reference("Rule2"), Symbol::Literal('x')]);
    assert!(!r.is_nullable(&names(&["Rule2"])));
}

#[test]
fn nullability_of_a_grammar() {
    let g = nullability();
    assert_eq!(
        g.nullable_names(),
        &names(&["TriviallyNullable", "OnlyUsesNullableRules", "RecursivelyNullable"])
    );
    assert!(g.rule_is_nullable(&String::from("TriviallyNullable")));
    assert!(g.rule_is_nullable(&String::from("OnlyUsesNullableRules")));
    assert!(g.rule_is_nullable(&String::from("RecursivelyNullable")));
    assert!(!g.rule_is_nullable(&String::from("Literal")));
    assert!(!g.rule_is_nullable(&String::from("OneOf")));
    assert!(!g.rule_is_nullable(&String::from("NotNullable")));
    assert!(!g.rule_is_nullable(&String::from("Missing")));
}

#[test]
fn nullability_needs_several_passes() {
    let rules = vec![
        rule("C", vec![reference("B")]),
        rule("B", vec![reference("A")]),
        rule("A", vec![]),
        rule("D", literal("d")),
    ];
    assert_eq!(find_nullable_rules(&rules), names(&["A", "B", "C"]));
}

#[test]
fn nullability_is_a_fixed_point() {
    let g = nullability();
    let found = g.nullable_names().clone();
    for idx in 0..g.len() {
        let r = g.index(idx);
        assert_eq!(r.is_nullable(&found), found.contains(r.name()));
    }
    let rules: Vec<Rule> = (0..g.len()).map(|i| g.index(i).clone()).collect();
    assert_eq!(find_nullable_rules(&rules), found);
    assert_eq!(find_nullable_rules(&rules), find_nullable_rules(&rules));
}

#[test]
fn rules_by_name_come_in_grammar_order() {
    let g = Grammar::new(vec![
        rule("A", vec![]),
        rule("B", literal("b")),
        rule("A", literal("a")),
    ])
    .unwrap();
    assert_eq!(g.get_rules_by_name(&String::from("A")), vec![0, 2]);
    assert_eq!(g.get_rules_by_name(&String::from("B")), vec![1]);
    assert_eq!(g.get_rules_by_name(&String::from("C")), Vec::<usize>::new());
    assert_eq!(g.start_symbol(), "A");
    assert_eq!(g.index(1).name(), "B");
}

#[test]
fn grammar_checks_the_names_of_its_rules() {
    assert!(Grammar::new(vec![rule("a@b", vec![])]).is_ok());
}

#[test]
fn lower_bound_counts_what_cannot_be_empty() {
    let g = nullability();
    let body = vec![
        reference("TriviallyNullable"),
        Symbol::Literal('x'),
        reference("NotNullable"),
        reference("RecursivelyNullable"),
        one_of("ab"),
    ];
    assert_eq!(lowerbound_length(&g, &body, 0), 3);
    assert_eq!(lowerbound_length(&g, &body, 2), 2);
    assert_eq!(lowerbound_length(&g, &body, 3), 1);
    assert_eq!(lowerbound_length(&g, &body, 5), 0);
    assert_eq!(lowerbound_length(&g, &body, 9), 0);
}

#[test]
fn from_rules() {
    assert_eq!(
        Item::from_rules(vec![0, 1, 2], 1),
        vec![
            Item { rule: 0, state: State { start: 1, progress: 0 } },
            Item { rule: 1, state: State { start: 1, progress: 0 } },
            Item { rule: 2, state: State { start: 1, progress: 0 } },
        ]
    );
}

fn five_rules() -> Grammar {
    Grammar::new(vec![
        rule("Rule", literal("Rule")),
        rule("Rule2", literal("Rule2")),
        rule("Rule3", literal("Rule3")),
        rule("Rule4", vec![one_of("Rule4")]),
        rule("Rule5", vec![reference("Rule")]),
    ])
    .unwrap()
}

#[test]
fn rule_name() {
    assert_eq!(Item::from_parts(0, 0, 0).rule_name(&five_rules()), "Rule");
}

#[test]
fn is_complete_completed() {
    assert!(Item::from_parts(0, 0, 4).is_complete(&five_rules()));
}

#[test]
fn is_complete_overshoot() {
    assert!(Item::from_parts(0, 0, 300).is_complete(&five_rules()));
}

#[test]
fn is_complete_incomplete() {
    assert!(!Item::from_parts(0, 0, 0).is_complete(&five_rules()));
}

#[test]
fn next_name_literal() {
    assert_eq!(Item::from_parts(0, 0, 0).next_name(&five_rules()), None);
}

#[test]
fn next_name_oneof() {
    assert_eq!(Item::from_parts(3, 0, 0).next_name(&five_rules()), None);
}

#[test]
fn next_name_rule() {
    assert_eq!(
        Item::from_parts(4, 0, 0).next_name(&five_rules()),
        Some(&String::from("Rule"))
    );
}

#[test]
fn next_name_of_a_complete_item() {
    assert_eq!(Item::from_parts(4, 0, 1).next_name(&five_rules()), None);
}

#[test]
fn advanced() {
    assert_eq!(Item::from_parts(0, 0, 0).advanced(), Item::from_parts(0, 0, 1));
    let item = Item::from_parts(2, 7, 3);
    assert_eq!(item.advanced().start(), 7);
    assert_eq!(item.advanced().starts_at(), 7);
    assert_eq!(item.advanced().rule(), 2);
}

#[test]
fn scan_matches_the_character_at_the_position() {
    let item = Item::from_parts(0, 0, 0);
    let input = vec!['x', 'y'];
    assert_eq!(item.scan(&Symbol::Literal('y'), &input, 1), Some(Item::from_parts(0, 0, 1)));
    assert_eq!(item.scan(&Symbol::Literal('y'), &input, 0), None);
    assert_eq!(item.scan(&Symbol::Literal('y'), &input, 2), None);
    assert_eq!(item.scan(&one_of("xy"), &input, 0), Some(Item::from_parts(0, 0, 1)));
}

#[test]
fn parse_rule() {
    let g = Grammar::new(vec![rule("Rule", vec![reference("Rule2")]), rule("Rule2", literal("Rule2"))])
        .unwrap();
    let mut state = StateSet::new(vec![]);
    let prev = Vec::new();
    let input = Vec::new();
    assert_eq!(Item::from_parts(0, 0, 0).parse(&g, &mut state, &prev, &input, 0), None);
    assert_eq!(state.items(), &Item::from_rules(vec![1], 0));
}

#[test]
fn parse_nullable_rule_advances_the_predictor() {
    let g = Grammar::new(vec![rule("Rule", vec![reference("Empty")]), rule("Empty", vec![])]).unwrap();
    let mut state = StateSet::new(Item::from_rules(vec![0], 0));
    let prev = Vec::new();
    let input = Vec::new();
    assert_eq!(Item::from_parts(0, 0, 0).parse(&g, &mut state, &prev, &input, 0), None);
    assert_eq!(
        state.items(),
        &vec![Item::from_parts(0, 0, 0), Item::from_parts(1, 0, 0), Item::from_parts(0, 0, 1)]
    );
}

#[test]
fn parse_literal_success() {
    let g = Grammar::new(vec![rule("Rule", literal("x"))]).unwrap();
    let mut state = StateSet::new(vec![]);
    let prev = Vec::new();
    let input = vec!['x'];
    assert_eq!(
        Item::from_parts(0, 0, 0).parse(&g, &mut state, &prev, &input, 0),
        Some(Item::from_parts(0, 0, 1))
    );
    assert_eq!(state.items(), &vec![]);
}

#[test]
fn parse_literal_failure() {
    let g = Grammar::new(vec![rule("Rule", literal("y"))]).unwrap();
    let mut state = StateSet::new(vec![]);
    let prev = Vec::new();
    let input = vec!['x'];
    assert_eq!(Item::from_parts(0, 0, 0).parse(&g, &mut state, &prev, &input, 0), None);
    assert_eq!(state.items(), &vec![]);
}

#[test]
fn parse_completion() {
    let g = Grammar::new(vec![rule("Rule", vec![reference("Rule2")]), rule("Rule2", literal("Rule2"))])
        .unwrap();
    let mut state = StateSet::new(vec![]);
    let prev = vec![
        StateSet::new(Item::from_rules(vec![0], 0)),
        StateSet::new(vec![]),
        StateSet::new(vec![]),
        StateSet::new(vec![]),
        StateSet::new(vec![]),
    ];
    let input = expand_input_of("Rule2");
    assert_eq!(Item::from_parts(1, 0, 5).parse(&g, &mut state, &prev, &input, 5), None);
    assert_eq!(state.items(), &vec![Item::from_parts(0, 0, 1)]);
}

fn expand_input_of(text: &str) -> Vec<char> {
    parsey::expand_input(text)
}

#[test]
fn complete_in_place_reads_the_current_set() {
    let g = Grammar::new(vec![rule("Rule", vec![reference("Empty")]), rule("Empty", vec![])]).unwrap();
    let mut state = StateSet::new(vec![Item::from_parts(0, 0, 0), Item::from_parts(1, 0, 0)]);
    let prev = Vec::new();
    Item::from_parts(1, 0, 0).complete(&g, &mut state, &prev);
    assert_eq!(
        state.items(),
        &vec![Item::from_parts(0, 0, 0), Item::from_parts(1, 0, 0), Item::from_parts(0, 0, 1)]
    );
}

#[test]
fn new_doesnt_check_for_duplicates() {
    let state = StateSet::new(Item::from_rules(vec![0, 0], 0));
    assert_eq!(state.items(), &Item::from_rules(vec![0, 0], 0));
}

#[test]
fn add_does_check_for_duplicates() {
    let mut state = StateSet::new(Item::from_rules(vec![0], 0));
    let orig_state = state.clone();
    state.add(Item::from_rules(vec![0], 0));
    assert_eq!(state, orig_state);
    state.add(Item::from_rules(vec![1, 0, 1, 2], 0));
    assert_eq!(state.items(), &Item::from_rules(vec![0, 1, 2], 0));
}

#[test]
fn next() {
    let items = Item::from_rules(vec![0, 1, 2], 0);
    let mut state = StateSet::new(items.clone());
    assert_eq!(state.next(), Some(items[0]));
    assert_eq!(state.next(), Some(items[1]));
    assert_eq!(state.next(), Some(items[2]));
    assert_ne!(state, StateSet::exhausted(items.clone()));
    assert_eq!(state.next(), None);
    assert_eq!(state, StateSet::exhausted(items));
}

#[test]
fn next_reaches_items_added_behind_the_cursor() {
    let mut state = StateSet::new(Item::from_rules(vec![0], 0));
    assert_eq!(state.next(), Some(Item::from_parts(0, 0, 0)));
    state.add(Item::from_rules(vec![1], 0));
    assert_eq!(state.next(), Some(Item::from_parts(1, 0, 0)));
    assert_eq!(state.next(), None);
}

#[test]
fn next_stays_exhausted() {
    let mut state = StateSet::new(Item::from_rules(vec![0], 0));
    assert_eq!(state.next(), Some(Item::from_parts(0, 0, 0)));
    assert_eq!(state.next(), None);
    state.add(Item::from_rules(vec![1], 0));
    assert_eq!(state.next(), None);
    assert_eq!(state.items().len(), 2);
}
