use parsey::ast::{clone_nodes, length, transpose, Completed, NodeIterator};
use parsey::utils::Uncertain;
use parsey::{build_parse_state, expand_input, parse, recognise};
use parsey::{Grammar, NonEmptyHashSet, Node, Rule, Step, Symbol, Trees};

fn reference(name: &str) -> Symbol {
    Symbol::Rule(String::from(name))
}

fn one_of(chars: &str) -> Symbol {
    Symbol::OneOf(NonEmptyHashSet::new(chars.chars().collect()).unwrap())
}

fn rule(name: &str, body: Vec<Symbol>) -> Rule {
    Rule::new(String::from(name), body).unwrap()
}

fn arith() -> Grammar {
    Grammar::new(vec![
        rule("Sum", vec![reference("Sum"), one_of("+-"), reference("Product")]),
        rule("Sum", vec![reference("Product")]),
        rule("Product", vec![reference("Product"), one_of("*/"), reference("Factor")]),
        rule("Product", vec![reference("Factor")]),
        rule("Factor", vec![Symbol::Literal('('), reference("Sum"), Symbol::Literal(')')]),
        rule("Factor", vec![reference("Number")]),
        rule("Number", vec![one_of("0123456789"), reference("Number")]),
        rule("Number", vec![one_of("0123456789")]),
    ])
    .unwrap()
}

fn ambiguous() -> Grammar {
    Grammar::new(vec![
        rule("E", vec![reference("E"), Symbol::Literal('+'), reference("E")]),
        rule("E", vec![Symbol::Literal('a')]),
    ])
    .unwrap()
}

fn node(name: &str, children: Vec<Node>) -> Node {
    Node::Internal { name: String::from(name), children }
}

fn leaf(c: char) -> Node {
    Node::Leaf(c)
}

fn number(c: char) -> Node {
    node("Number", vec![leaf(c)])
}

fn product(c: char) -> Node {
    node("Product", vec![node("Factor", vec![number(c)])])
}

fn take(trees: &mut Trees<'_>, most: usize) -> (Vec<Node>, bool) {
    let mut found = Vec::new();
    while found.len() < most {
        match trees.next_tree(1_000_000) {
            Step::Tree(tree, _) => found.push(tree),
            Step::Exhausted => return (found, true),
            Step::Unfinished => panic!("the search did not finish"),
        }
    }
    (found, false)
}

fn leaves(tree: &Node) -> String {
    match tree {
        Node::Leaf(c) => c.to_string(),
        Node::Internal { children, .. } => children.iter().map(leaves).collect(),
    }
}

#[test]
fn parse_arith_gives_the_one_tree() {
    let g = arith();
    let mut trees = parse(&g, "1+2");
    let (found, done) = take(&mut trees, 10);
    assert!(done);
    assert_eq!(
        found,
        vec![node(
            "Sum",
            vec![node("Sum", vec![product('1')]), leaf('+'), product('2')]
        )]
    );
    assert_eq!(trees.next_tree(1000), Step::Exhausted);
}

#[test]
fn parse_tree_ends_at_the_end_of_the_input() {
    let g = arith();
    let mut trees = parse(&g, "(1+2)*3");
    match trees.next_tree(1_000_000) {
        Step::Tree(tree, end) => {
            assert_eq!(end, 7);
            assert_eq!(tree.len(), 7);
            assert_eq!(leaves(&tree), "(1+2)*3");
        }
        other => panic!("no tree: {:?}", other),
    }
}

#[test]
fn parse_ambiguous_gives_both_trees_in_chart_order() {
    let g = ambiguous();
    let mut trees = parse(&g, "a+a+a");
    let (found, done) = take(&mut trees, 10);
    assert!(done);
    let a = || node("E", vec![leaf('a')]);
    let pair = || node("E", vec![a(), leaf('+'), a()]);
    assert_eq!(
        found,
        vec![
            node("E", vec![a(), leaf('+'), pair()]),
            node("E", vec![pair(), leaf('+'), a()]),
        ]
    );
    for tree in &found {
        assert_eq!(leaves(tree), "a+a+a");
    }
}

#[test]
fn parse_of_input_outside_the_language_is_empty() {
    let g = arith();
    for input in ["1+", "1%2", "+1", ""] {
        assert!(!recognise(&g, input));
        let mut trees = parse(&g, input);
        assert_eq!(trees.next_tree(1000), Step::Exhausted);
    }
}

#[test]
fn parse_agrees_with_recognise_on_arith() {
    let g = arith();
    for input in ["1", "12", "1+2*3", "(1)", "((7))", "1-", ")", "1+2+3-4+5*(6+7)/106"] {
        let mut trees = parse(&g, input);
        let first = trees.next_tree(10_000_000);
        assert_eq!(matches!(first, Step::Tree(_, _)), recognise(&g, input));
    }
}

#[test]
fn parse_is_repeatable() {
    let g = ambiguous();
    let (first, done) = take(&mut parse(&g, "a+a+a+a"), 20);
    let (second, _) = take(&mut parse(&g, "a+a+a+a"), 20);
    assert!(done);
    assert_eq!(first, second);
    assert_eq!(first.len(), 8);
    let mut different: Vec<&Node> = Vec::new();
    for tree in &first {
        assert_eq!(leaves(tree), "a+a+a+a");
        if !different.contains(&tree) {
            different.push(tree);
        }
    }
    assert_eq!(different.len(), 5);
}

#[test]
fn parse_empty_rule() {
    let g = Grammar::new(vec![rule("Empty", vec![])]).unwrap();
    let mut trees = parse(&g, "");
    let (found, done) = take(&mut trees, 10);
    assert!(done);
    assert_eq!(found, vec![node("Empty", vec![])]);
    assert_eq!(parse(&g, " ").next_tree(1000), Step::Exhausted);
}

#[test]
fn parse_almost_empty() {
    let g = Grammar::new(vec![
        rule(
            "Rule",
            vec![
                Symbol::Literal('R'),
                Symbol::Literal('u'),
                Symbol::Literal('l'),
                Symbol::Literal('e'),
                reference("Empty"),
            ],
        ),
        rule("Empty", vec![]),
    ])
    .unwrap();
    let (found, done) = take(&mut parse(&g, "Rule"), 10);
    assert!(done);
    assert_eq!(
        found,
        vec![node(
            "Rule",
            vec![leaf('R'), leaf('u'), leaf('l'), leaf('e'), node("Empty", vec![])]
        )]
    );
}

#[test]
fn parse_nullable_loop_gives_an_endless_sequence() {
    let g = Grammar::new(vec![
        rule("A", vec![]),
        rule("A", vec![reference("B")]),
        rule("B", vec![reference("A")]),
    ])
    .unwrap();
    let (found, done) = take(&mut parse(&g, ""), 3);
    assert!(!done);
    assert_eq!(
        found,
        vec![
            node("A", vec![]),
            node("A", vec![node("B", vec![node("A", vec![])])]),
            node(
                "A",
                vec![node("B", vec![node("A", vec![node("B", vec![node("A", vec![])])])])]
            ),
        ]
    );
}

#[test]
fn parse_terminal_at_the_end_must_reach_the_end() {
    let g = Grammar::new(vec![
        rule("S", vec![reference("A"), Symbol::Literal('x')]),
        rule("A", vec![Symbol::Literal('a')]),
        rule("A", vec![Symbol::Literal('a'), Symbol::Literal('x'), Symbol::Literal('a')]),
    ])
    .unwrap();
    let (found, done) = take(&mut parse(&g, "axax"), 10);
    assert!(done);
    assert_eq!(
        found,
        vec![node(
            "S",
            vec![node("A", vec![leaf('a'), leaf('x'), leaf('a')]), leaf('x')]
        )]
    );
}

#[test]
fn parse_order_follows_the_order_of_the_rules() {
    let a = || rule("A", vec![Symbol::Literal('a')]);
    let b = || rule("B", vec![Symbol::Literal('a')]);
    let by_a = || node("S", vec![node("A", vec![leaf('a')])]);
    let by_b = || node("S", vec![node("B", vec![leaf('a')])]);
    let first = Grammar::new(vec![
        rule("S", vec![reference("A")]),
        rule("S", vec![reference("B")]),
        a(),
        b(),
    ])
    .unwrap();
    let swapped = Grammar::new(vec![
        rule("S", vec![reference("B")]),
        rule("S", vec![reference("A")]),
        a(),
        b(),
    ])
    .unwrap();
    let (found, _) = take(&mut parse(&first, "a"), 10);
    assert_eq!(found, vec![by_a(), by_b()]);
    let (found, _) = take(&mut parse(&swapped, "a"), 10);
    assert_eq!(found, vec![by_b(), by_a()]);
}

#[test]
fn search_can_be_taken_up_again() {
    let g = arith();
    let mut trees = parse(&g, "1+2*3");
    let mut pauses = 0;
    let tree = loop {
        match trees.next_tree(3) {
            Step::Tree(tree, _) => break tree,
            Step::Unfinished => pauses += 1,
            Step::Exhausted => panic!("no tree"),
        }
    };
    assert!(pauses > 0);
    let (whole, _) = take(&mut parse(&g, "1+2*3"), 1);
    assert_eq!(vec![tree], whole);
    assert_eq!(parse(&g, "1").next_tree(0), Step::Unfinished);
}

#[test]
fn transpose_groups_complete_items_by_start() {
    let g = arith();
    let input = expand_input("1+2");
    let chart = build_parse_state(g.start_symbol(), &g, &input).unwrap();
    let table = transpose(&g, &chart);
    assert_eq!(table.len(), 4);
    assert_eq!(
        table[0],
        vec![
            Completed { rule: 7, end: 1 },
            Completed { rule: 5, end: 1 },
            Completed { rule: 3, end: 1 },
            Completed { rule: 1, end: 1 },
            Completed { rule: 0, end: 3 },
        ]
    );
    assert_eq!(table[1], vec![]);
    assert_eq!(
        table[2],
        vec![
            Completed { rule: 7, end: 3 },
            Completed { rule: 5, end: 3 },
            Completed { rule: 3, end: 3 },
        ]
    );
    assert_eq!(table[3], vec![]);
}

#[test]
fn node_iterator_for_an_inner_goal() {
    let g = arith();
    let input = expand_input("1+2");
    let chart = build_parse_state(g.start_symbol(), &g, &input).unwrap();
    let table = transpose(&g, &chart);
    let mut fuel = 10_000;
    let mut products =
        NodeIterator::new(&g, &table, &input, &String::from("Product"), 2, Uncertain::Unknown(3));
    assert_eq!(
        products.next(&g, &table, &input, &mut fuel),
        Step::Tree(product('2'), 3)
    );
    assert_eq!(products.next(&g, &table, &input, &mut fuel), Step::Exhausted);
    assert!(fuel < 10_000);
    let mut none =
        NodeIterator::new(&g, &table, &input, &String::from("Product"), 2, Uncertain::Known(2));
    assert_eq!(none.next(&g, &table, &input, &mut fuel), Step::Exhausted);
    let mut outside =
        NodeIterator::new(&g, &table, &input, &String::from("Sum"), 3, Uncertain::Known(3));
    assert_eq!(outside.next(&g, &table, &input, &mut fuel), Step::Exhausted);
}

#[test]
fn node_len_counts_leaves() {
    assert_eq!(leaf('x').len(), 1);
    assert_eq!(node("Empty", vec![]).len(), 0);
    assert_eq!(
        node("Sum", vec![node("Sum", vec![product('1')]), leaf('+'), product('2')]).len(),
        3
    );
}

#[test]
fn node_to_string() {
    assert_eq!(leaf('x').to_string(), "x");
    assert_eq!(node("Empty", vec![]).to_string(), "Empty { }");
    assert_eq!(
        node("Sum", vec![node("Sum", vec![number('1')]), leaf('+'), number('2')]).to_string(),
        "Sum { Sum { Number { 1 } } + Number { 2 } }"
    );
}

#[test]
fn node_clone_is_equal() {
    let tree = node("Sum", vec![node("Sum", vec![product('1')]), leaf('+'), product('2')]);
    assert_eq!(tree.clone(), tree);
}

#[test]
fn uncertain_limits() {
    assert!(Uncertain::Known(3).allows(3));
    assert!(!Uncertain::Known(3).allows(2));
    assert!(Uncertain::Unknown(3).allows(2));
    assert!(Uncertain::Unknown(3).allows(3));
    assert!(!Uncertain::Unknown(3).allows(4));
    assert_eq!(Uncertain::Known(5).minus(2), Uncertain::Unknown(3));
    assert_eq!(Uncertain::Unknown(5).minus(5), Uncertain::Unknown(0));
    assert_eq!(Uncertain::Unknown(1).minus(2), Uncertain::Unknown(0));
}

#[test]
fn self_reference_is_accepted_without_a_tree() {
    let g = Grammar::new(vec![rule("S", vec![reference("A")]), rule("A", vec![reference("A")])])
        .unwrap();
    assert!(g.rule_is_nullable(&String::from("A")));
    assert!(recognise(&g, ""));
    let mut trees = parse(&g, "");
    assert_eq!(trees.next_tree(1000), Step::Unfinished);
    assert_eq!(trees.next_tree(1000), Step::Unfinished);
}

#[test]
fn every_call_with_fuel_brings_the_search_forward() {
    let g = arith();
    let mut steps = 0;
    let mut trees = parse(&g, "((1))");
    while trees.next_tree(1) == Step::Unfinished {
        steps += 1;
        assert!(steps < 10_000);
    }
    assert!(steps > 10);
}

#[test]
fn length_adds_the_lengths_of_the_nodes() {
    assert_eq!(length(&vec![]), 0);
    assert_eq!(length(&vec![leaf('a'), product('1'), node("Empty", vec![]), leaf('b')]), 3);
}

#[test]
fn clone_nodes_copies_each_node() {
    let nodes = vec![leaf('a'), product('1'), node("Empty", vec![])];
    assert_eq!(clone_nodes(&nodes), nodes);
}

#[test]
fn render_into_appends() {
    let mut text = String::from("> ");
    product('7').render_into(&mut text);
    assert_eq!(text, "> Product { Factor { Number { 7 } } }");
}
