//! Parse trees, and their lazy enumeration from a finished chart.
use vstd::prelude::*;
use vstd::string::StringExecFns;
use crate::chart::recognised;
use crate::grammar::{nullable_set, Grammar};
use crate::item::{chart_items, Item};
use crate::rule::RuleView;
use crate::search::{child_limit, search, Choice, Outcome, Search};
use crate::stateset::StateSet;
use crate::symbol::{Symbol, SymbolView};
use crate::utils::Uncertain;

verus! {

/// A parse tree node.
#[derive(Debug, PartialEq, Eq)]
pub enum Node {
    /// An internal node, made from a rule of the grammar.
    Internal {
        /// The name of the rule.
        name: String,
        /// One child for each symbol of the rule's body, in order.
        children: Vec<Node>,
    },
    /// A leaf, made from a terminal: one character of the input.
    Leaf(char),
}

/// What a [`Node`] stands for: a tree of names over characters.
pub enum Tree {
    Internal { name: Seq<char>, children: Seq<Tree> },
    Leaf(char),
}

/// The number of leaves below a list of trees.
pub open spec fn total_len(trees: Seq<Tree>) -> nat
    decreases trees, 0nat,
{
    if trees.len() == 0 {
        0
    } else {
        total_len(trees.drop_last()) + trees.last().len()
    }
}

/// The leaves below a list of trees, from left to right.
pub open spec fn all_leaves(trees: Seq<Tree>) -> Seq<char>
    decreases trees, 0nat,
{
    if trees.len() == 0 {
        Seq::empty()
    } else {
        all_leaves(trees.drop_last()) + trees.last().leaves()
    }
}

impl Tree {
    /// The length of a tree in characters: a leaf holds one character, and
    /// an internal node as many as its children together.
    pub open spec fn len(self) -> nat
        decreases self, 1nat,
    {
        match self {
            Tree::Leaf(_) => 1,
            Tree::Internal { name: _, children } => total_len(children),
        }
    }

    /// The characters of the leaves of a tree, from left to right.
    pub open spec fn leaves(self) -> Seq<char>
        decreases self, 1nat,
    {
        match self {
            Tree::Leaf(c) => seq![c],
            Tree::Internal { name: _, children } => all_leaves(children),
        }
    }

    /// The tree is a parse tree for `symbol` of the text that begins at
    /// position `start` of `input`. A leaf stands for a terminal that
    /// accepts its character, which is the one at `start`. An internal node
    /// stands for a reference to a rule of its name; some rule of that name
    /// has one symbol for each child, and each child is a parse tree for its
    /// symbol of the text that begins where the child before it ends.
    pub open spec fn fits(
        self,
        rules: Seq<RuleView>,
        input: Seq<char>,
        symbol: SymbolView,
        start: int,
    ) -> bool
        decreases self,
    {
        match self {
            Tree::Leaf(c) => {
                &&& symbol.accepts(c)
                &&& 0 <= start < input.len()
                &&& input[start] == c
            },
            Tree::Internal { name, children } => {
                &&& symbol == SymbolView::Rule(name)
                &&& exists|r: int|
                    0 <= r < rules.len() && (#[trigger] rules[r]).name == name && children.len()
                        == rules[r].body.len() && forall|i: int|
                        0 <= i < children.len() ==> children[i].fits(
                            rules,
                            input,
                            #[trigger] rules[r].body[i],
                            start + total_len(children.take(i)),
                        )
            },
        }
    }

    /// The children are parse trees for the symbols of the body of rule `r`,
    /// one after the other from position `start`, and the rule is called
    /// `name`.
    pub open spec fn built_by(
        rules: Seq<RuleView>,
        input: Seq<char>,
        name: Seq<char>,
        children: Seq<Tree>,
        start: int,
        r: int,
    ) -> bool {
        &&& 0 <= r < rules.len()
        &&& rules[r].name == name
        &&& children.len() == rules[r].body.len()
        &&& forall|i: int|
            0 <= i < children.len() ==> children[i].fits(
                rules,
                input,
                #[trigger] rules[r].body[i],
                start + total_len(children.take(i)),
            )
    }

    /// The tree is an internal node that rule `r` builds from position
    /// `start`: it carries the rule's name, and its children are parse trees
    /// for the symbols of the rule's body, one after the other.
    pub open spec fn made_by(self, rules: Seq<RuleView>, input: Seq<char>, start: int, r: int) -> bool {
        match self {
            Tree::Leaf(_) => false,
            Tree::Internal { name, children } => Self::built_by(
                rules,
                input,
                name,
                children,
                start,
                r,
            ),
        }
    }

    /// An internal node is a parse tree exactly when some rule builds it.
    pub proof fn lemma_fits_internal(
        rules: Seq<RuleView>,
        input: Seq<char>,
        name: Seq<char>,
        children: Seq<Tree>,
        start: int,
    )
        ensures
            (Tree::Internal { name, children }).fits(rules, input, SymbolView::Rule(name), start)
                <==> exists|r: int| #[trigger] Self::built_by(rules, input, name, children, start, r),
    {
        let tree = Tree::Internal { name, children };
        if tree.fits(rules, input, SymbolView::Rule(name), start) {
            let r = choose|r: int|
                0 <= r < rules.len() && (#[trigger] rules[r]).name == name && children.len()
                    == rules[r].body.len() && forall|i: int|
                    0 <= i < children.len() ==> children[i].fits(
                        rules,
                        input,
                        #[trigger] rules[r].body[i],
                        start + total_len(children.take(i)),
                    );
            assert(Self::built_by(rules, input, name, children, start, r));
        }
        if exists|r: int| #[trigger] Self::built_by(rules, input, name, children, start, r) {
            let r = choose|r: int| #[trigger] Self::built_by(rules, input, name, children, start, r);
            assert(rules[r].name == name);
        }
    }
}

/// The views of a list of nodes.
pub open spec fn trees_of(nodes: Seq<Node>) -> Seq<Tree>
    decreases nodes,
{
    Seq::new(
        nodes.len(),
        |i: int|
            if 0 <= i < nodes.len() {
                nodes[i]@
            } else {
                Tree::Leaf(' ')
            },
    )
}

impl View for Node {
    type V = Tree;

    open spec fn view(&self) -> Tree
        decreases self,
    {
        match self {
            Node::Leaf(c) => Tree::Leaf(*c),
            Node::Internal { name, children } => Tree::Internal {
                name: name@,
                children: trees_of(children@),
            },
        }
    }
}

/// A leaf that holds the character at position `at` of the input is a parse
/// tree of length 1 for every terminal that accepts the character.
pub proof fn lemma_leaf_fits(
    rules: Seq<RuleView>,
    input: Seq<char>,
    symbol: SymbolView,
    at: int,
    leaf: Node,
)
    requires
        0 <= at < input.len(),
        leaf matches Node::Leaf(c) && input[at] == c && symbol.accepts(c),
    ensures
        leaf@ == Tree::Leaf(input[at]),
        leaf@.len() == 1,
        leaf@.fits(rules, input, symbol, at),
{
    let tree = leaf@;
    assert(tree == Tree::Leaf(input[at]));
    assert(tree.len() == 1);
    assert(tree.fits(rules, input, symbol, at));
}

/// A parse tree covers the part of the input that begins at its start and
/// has its length: the leaves of the tree, read from left to right, are the
/// characters of that part.
pub proof fn lemma_fits_leaves(
    tree: Tree,
    rules: Seq<RuleView>,
    input: Seq<char>,
    symbol: SymbolView,
    start: int,
)
    requires
        tree.fits(rules, input, symbol, start),
        0 <= start <= input.len(),
    ensures
        start + tree.len() <= input.len(),
        tree.leaves() == input.subrange(start, start + tree.len()),
    decreases tree, 1nat, 0nat,
{
    match tree {
        Tree::Leaf(c) => {
            assert(seq![c] =~= input.subrange(start, start + 1));
        },
        Tree::Internal { name, children } => {
            Tree::lemma_fits_internal(rules, input, name, children, start);
            let r = choose|r: int| #[trigger] Tree::built_by(rules, input, name, children, start, r);
            assert(Tree::built_by(rules, input, name, children, start, r));
            lemma_children_leaves(children, rules, input, rules[r].body, start, children.len());
            assert(children.take(children.len() as int) == children);
        },
    }
}

/// The first `n` of a list of parse trees that stand one after the other
/// cover the input from the start of the first to the end of the last.
pub proof fn lemma_children_leaves(
    children: Seq<Tree>,
    rules: Seq<RuleView>,
    input: Seq<char>,
    body: Seq<SymbolView>,
    start: int,
    n: nat,
)
    requires
        0 <= start <= input.len(),
        n <= children.len() <= body.len(),
        forall|i: int|
            0 <= i < children.len() ==> children[i].fits(
                rules,
                input,
                #[trigger] body[i],
                start + total_len(children.take(i)),
            ),
    ensures
        start + total_len(children.take(n as int)) <= input.len(),
        all_leaves(children.take(n as int)) == input.subrange(
            start,
            start + total_len(children.take(n as int)),
        ),
    decreases children, 0nat, n,
{
    if n == 0 {
        assert(all_leaves(children.take(0)) =~= input.subrange(start, start));
    } else {
        let before = children.take(n - 1);
        let now = children.take(n as int);
        lemma_children_leaves(children, rules, input, body, start, (n - 1) as nat);
        assert(now.drop_last() == before);
        assert(now.last() == children[n - 1]);
        let at = start + total_len(before);
        let last = children[n - 1];
        assert(last.fits(rules, input, body[n - 1], at));
        lemma_fits_leaves(last, rules, input, body[n - 1], at);
        assert(total_len(now) == total_len(before) + last.len());
        assert(all_leaves(now) == all_leaves(before) + last.leaves());
        assert(input.subrange(start, at) + input.subrange(at, at + last.len()) =~= input.subrange(
            start,
            at + last.len(),
        ));
    }
}

impl Clone for Node {
    fn clone(&self) -> (copy: Node)
        ensures
            copy@ == self@,
        decreases self,
    {
        match self {
            Node::Leaf(c) => Node::Leaf(*c),
            Node::Internal { name, children } => Node::Internal {
                name: name.clone(),
                children: clone_nodes(children),
            },
        }
    }
}

/// Copies of the given nodes, in their order.
pub fn clone_nodes(nodes: &Vec<Node>) -> (copies: Vec<Node>)
    ensures
        trees_of(copies@) == trees_of(nodes@),
    decreases nodes,
{
    let mut copies: Vec<Node> = Vec::new();
    let mut i: usize = 0;
    while i < nodes.len()
        invariant
            i <= nodes.len(),
            copies@.len() == i,
            forall|k: int| 0 <= k < i ==> (#[trigger] copies@[k])@ == nodes@[k]@,
        decreases nodes.len() - i,
    {
        proof {
            vstd::std_specs::vec::axiom_vec_index_decreases(*nodes, i as int);
        }
        copies.push(nodes[i].clone());
        i += 1;
    }
    assert(trees_of(copies@) =~= trees_of(nodes@));
    copies
}

/// A complete item as the tree enumerator reads it: the rule, and the
/// position at which the text that the rule matched ends.
#[derive(Debug, Clone, Copy, PartialEq, Eq, Structural)]
pub struct Completed {
    pub rule: usize,
    pub end: usize,
}

/// The complete items among the first `n` of `items` that began at `start`,
/// in their order, each with `end` as its end.
pub open spec fn completed_upto(
    rules: Seq<RuleView>,
    items: Seq<Item>,
    start: usize,
    end: usize,
    n: nat,
) -> Seq<Completed>
    decreases n,
{
    if n == 0 {
        Seq::empty()
    } else {
        let before = completed_upto(rules, items, start, end, (n - 1) as nat);
        if n <= items.len() && items[n - 1].rule < rules.len() && items[n - 1].state.start == start
            && items[n - 1].complete_in(rules) {
            before.push(Completed { rule: items[n - 1].rule, end })
        } else {
            before
        }
    }
}

/// The complete items of the first `m` sets of the chart that began at
/// `start`: those of the first set in their order, then those of the second,
/// and so on, each with the position of its set as its end.
pub open spec fn transposed_row(
    rules: Seq<RuleView>,
    chart: Seq<Seq<Item>>,
    start: usize,
    m: nat,
) -> Seq<Completed>
    decreases m,
{
    if m == 0 {
        Seq::empty()
    } else if m <= chart.len() {
        transposed_row(rules, chart, start, (m - 1) as nat) + completed_upto(
            rules,
            chart[m - 1],
            start,
            (m - 1) as usize,
            chart[m - 1].len(),
        )
    } else {
        transposed_row(rules, chart, start, (m - 1) as nat)
    }
}

/// The transposed chart: one row for each position, which holds the
/// complete items that began there.
pub open spec fn transposed(rules: Seq<RuleView>, chart: Seq<Seq<Item>>) -> Seq<Seq<Completed>> {
    Seq::new(chart.len(), |s: int| transposed_row(rules, chart, s as usize, chart.len()))
}

/// Drops the incomplete items of the chart and turns it round, so that the
/// outer index selects the position at which an item began.
pub fn transpose(grammar: &Grammar, state: &Vec<StateSet>) -> (table: Vec<Vec<Completed>>)
    ensures
        rows(table@) == transposed(grammar@, chart_items(state@)),
        table@.len() == state@.len(),
        forall|s: int|
            0 <= s < table@.len() ==> (#[trigger] table@[s])@ == transposed_row(
                grammar@,
                chart_items(state@),
                s as usize,
                state@.len(),
            ),
{
    let rule_count = grammar.len();
    let ghost chart = chart_items(state@);
    let mut table: Vec<Vec<Completed>> = Vec::new();
    let mut start: usize = 0;
    while start < state.len()
        invariant
            start <= state.len(),
            rule_count == grammar@.len(),
            chart == chart_items(state@),
            table@.len() == start,
            forall|s: int|
                0 <= s < table@.len() ==> (#[trigger] table@[s])@ == transposed_row(
                    grammar@,
                    chart,
                    s as usize,
                    state@.len(),
                ),
        decreases state.len() - start,
    {
        let mut row: Vec<Completed> = Vec::new();
        let mut end: usize = 0;
        while end < state.len()
            invariant
                end <= state.len(),
                start < state.len(),
                rule_count == grammar@.len(),
                chart == chart_items(state@),
                row@ == transposed_row(grammar@, chart, start, end as nat),
            decreases state.len() - end,
        {
            let items = state[end].items();
            let ghost before = row@;
            let mut k: usize = 0;
            while k < items.len()
                invariant
                    k <= items.len(),
                    rule_count == grammar@.len(),
                    items@ == chart[end as int],
                    row@ == before + completed_upto(grammar@, items@, start, end, k as nat),
                decreases items.len() - k,
            {
                let item = items[k];
                if item.rule() < rule_count && item.start() == start && item.is_complete(grammar) {
                    row.push(Completed { rule: item.rule(), end });
                }
                assert(row@ =~= before + completed_upto(grammar@, items@, start, end, (k + 1) as nat));
                k += 1;
            }
            end += 1;
        }
        table.push(row);
        start += 1;
    }
    assert(rows(table@) =~= transposed(grammar@, chart_items(state@)));
    table
}

/// The least number of characters that the symbols of `body` from index
/// `from` on can match together: one for each terminal and for each
/// reference to a name that is not nullable.
pub open spec fn least_len(rules: Seq<RuleView>, body: Seq<SymbolView>, from: nat) -> nat
    decreases body.len() - from,
{
    if from >= body.len() {
        0
    } else {
        let rest = least_len(rules, body, from + 1);
        match body[from as int] {
            SymbolView::Rule(name) => if nullable_set(rules).contains(name) {
                rest
            } else {
                rest + 1
            },
            _ => rest + 1,
        }
    }
}

/// Computes a lower bound on the number of characters that the symbols of
/// `items` from index `from` on need: a symbol needs one, unless it refers
/// to a nullable name.
pub fn lowerbound_length(grammar: &Grammar, items: &Vec<Symbol>, from: usize) -> (least: usize)
    ensures
        least == least_len(grammar@, Seq::new(items@.len(), |i: int| items@[i]@), from as nat),
        least <= items@.len(),
{
    let ghost body = Seq::new(items@.len(), |i: int| items@[i]@);
    let mut least: usize = 0;
    let mut i: usize = items.len();
    if from >= items.len() {
        return 0;
    }
    while i > from
        invariant
            from <= i <= items.len(),
            body == Seq::new(items@.len(), |i: int| items@[i]@),
            least == least_len(grammar@, body, i as nat),
            least <= items.len() - i,
        decreases i,
    {
        i -= 1;
        assert(body[i as int] == items@[i as int]@);
        match &items[i] {
            Symbol::Rule(name) => {
                if !grammar.rule_is_nullable(name) {
                    least += 1;
                }
            },
            _ => {
                least += 1;
            },
        }
    }
    least
}

/// Whether a complete item can build a tree for the goal: it belongs to a
/// rule called `name` and ends as `end` asks.
pub open spec fn is_candidate(
    rules: Seq<RuleView>,
    item: Completed,
    name: Seq<char>,
    end: Uncertain,
) -> bool {
    &&& item.rule < rules.len()
    &&& rules[item.rule as int].name == name
    &&& end.admits(item.end as int)
}

/// The candidates among the entries of `row` from index `from` on, in their
/// order.
pub open spec fn matching_from(
    rules: Seq<RuleView>,
    row: Seq<Completed>,
    name: Seq<char>,
    end: Uncertain,
    from: nat,
) -> Seq<Completed>
    decreases row.len() - from,
{
    if from >= row.len() {
        Seq::empty()
    } else {
        let rest = matching_from(rules, row, name, end, from + 1);
        if is_candidate(rules, row[from as int], name, end) {
            seq![row[from as int]] + rest
        } else {
            rest
        }
    }
}

/// A stack read from its top to its bottom.
pub open spec fn reversed(stack: Seq<Completed>) -> Seq<Completed>
    decreases stack.len(),
{
    if stack.len() == 0 {
        Seq::empty()
    } else {
        seq![stack.last()] + reversed(stack.drop_last())
    }
}

/// Marks the index of a frame, for the sake of the quantifiers over frames.
pub open spec fn slot(i: int) -> bool {
    true
}

/// One decision on the stack of a [`NodeIterator`]: the tree chosen for a
/// symbol of the body, the position at which it ends, and for a reference
/// to a rule the iterator that gives the other trees that could stand there.
pub struct Frame {
    node: Node,
    end: usize,
    rest: Option<Box<NodeIterator>>,
}

/// Lazily enumerates the parse trees for one goal: a rule name, the position
/// at which the tree starts, and a limit on the position at which it ends.
pub struct NodeIterator {
    /// The name of the rules that can build the tree.
    name: String,
    /// The complete item that is being tried; `None` ends the enumeration.
    current: Option<Completed>,
    /// The complete items that are tried after it, the next one on top.
    candidates: Vec<Completed>,
    /// The decisions made for the first symbols of the current body.
    progress: Vec<Frame>,
    /// The iterator for the next symbol of the body, when it has been made
    /// and has not given a tree yet.
    pending: Option<Box<NodeIterator>>,
    /// Whether the decision on top of the stack has to be revised before
    /// the search goes on.
    backtracking: bool,
    /// The position at which the tree starts.
    start: usize,
    /// The limit on the position at which the tree ends.
    end: Uncertain,
}

/// What one call for the next tree gives.
#[derive(Debug, PartialEq, Eq)]
pub enum Step {
    /// The next tree, and the position of the input at which it ends.
    Tree(Node, usize),
    /// There are no more trees.
    Exhausted,
    /// The budget of steps ran out; the search can be taken up again.
    Unfinished,
}

impl View for Step {
    type V = Outcome;

    open spec fn view(&self) -> Outcome {
        match self {
            Step::Tree(node, end) => Outcome::Tree(node@, *end),
            Step::Exhausted => Outcome::Exhausted,
            Step::Unfinished => Outcome::Unfinished,
        }
    }
}

/// What the iterator kept with a decision stands for.
pub open spec fn rest_model(rest: Option<Box<NodeIterator>>) -> Option<Box<Search>> {
    match rest {
        Some(sub) => Some(Box::new((*sub).model())),
        None => None,
    }
}

/// The rows of the transposed chart.
pub open spec fn rows(table: Seq<Vec<Completed>>) -> Seq<Seq<Completed>> {
    Seq::new(table.len(), |i: int| table[i]@)
}

impl Frame {
    /// The decision that the frame stands for.
    pub closed spec fn model(self) -> Choice {
        Choice { tree: self.node@, end: self.end, rest: rest_model(self.rest) }
    }
}

impl NodeIterator {
    /// The state of the search that the iterator stands for.
    pub closed spec fn model(self) -> Search
        decreases self,
    {
        Search {
            name: self.name@,
            upcoming: self.upcoming(),
            chosen: Seq::new(
                self.progress@.len(),
                |i: int|
                    if 0 <= i < self.progress@.len() {
                        Choice {
                            tree: self.progress@[i].node@,
                            end: self.progress@[i].end,
                            rest: match self.progress@[i].rest {
                                Some(sub) => Some(Box::new((*sub).model())),
                                None => None,
                            },
                        }
                    } else {
                        Choice { tree: Tree::Leaf(' '), end: 0, rest: None }
                    },
            ),
            pending: match self.pending {
                Some(sub) => Some(Box::new((*sub).model())),
                None => None,
            },
            backtracking: self.backtracking,
            start: self.start,
            end: self.end,
        }
    }
}

impl NodeIterator {
    /// The name that the trees of the iterator carry.
    pub closed spec fn goal_name(self) -> Seq<char> {
        self.name@
    }

    /// The position at which the trees of the iterator start.
    pub closed spec fn goal_start(self) -> usize {
        self.start
    }

    /// The limit on the position at which the trees of the iterator end.
    pub closed spec fn goal_end(self) -> Uncertain {
        self.end
    }

    /// The complete items that are still to be tried, the current one first.
    pub closed spec fn upcoming(self) -> Seq<Completed> {
        match self.current {
            Some(c) => seq![c] + reversed(self.candidates@),
            None => Seq::empty(),
        }
    }

    /// The trees chosen so far for the current body.
    pub closed spec fn trees(self) -> Seq<Tree> {
        Seq::new(self.progress@.len(), |i: int| self.progress@[i].node@)
    }

    /// The invariant of the iterator. Every complete item in it belongs to
    /// a rule of the goal's name. The trees on the stack are parse trees for
    /// the first symbols of the current body, one after the other from the
    /// goal's start, and the last symbol's tree keeps to the goal's limit.
    /// The iterators kept with them have the goals that their places ask
    /// for.
    pub closed spec fn wf(self, rules: Seq<RuleView>, input: Seq<char>) -> bool
        decreases self,
    {
        &&& self.start <= input.len()
        &&& forall|k: int|
            0 <= k < self.candidates@.len() ==> (#[trigger] self.candidates@[k]).rule < rules.len()
                && rules[self.candidates@[k].rule as int].name == self.name@
        &&& match self.current {
            None => self.candidates@.len() == 0 && self.progress@.len() == 0 && self.pending is None,
            Some(c) => {
                &&& c.rule < rules.len()
                &&& rules[c.rule as int].name == self.name@
                &&& self.progress@.len() <= rules[c.rule as int].body.len()
                &&& forall|i: int|
                    0 <= i < self.progress@.len() && #[trigger] slot(i) ==> {
                        let body = rules[c.rule as int].body;
                        let frame = self.progress@[i];
                        let at = self.start + total_len(self.trees().take(i));
                        &&& frame.node@.fits(rules, input, body[i], at)
                        &&& frame.end == at + frame.node@.len()
                        &&& frame.end <= input.len()
                        &&& (i == body.len() - 1 ==> self.end.admits(frame.end as int))
                        &&& match frame.rest {
                            None => true,
                            Some(sub) => {
                                &&& sub.wf(rules, input)
                                &&& body[i] == SymbolView::Rule(sub.name@)
                                &&& sub.start == at
                                &&& (i == body.len() - 1 ==> sub.end == self.end)
                            },
                        }
                    }
                &&& match self.pending {
                    None => true,
                    Some(sub) => {
                        let body = rules[c.rule as int].body;
                        let depth = self.progress@.len() as int;
                        &&& !self.backtracking
                        &&& depth < body.len()
                        &&& sub.wf(rules, input)
                        &&& body[depth] == SymbolView::Rule(sub.name@)
                        &&& sub.start == self.start + total_len(self.trees())
                        &&& (depth == body.len() - 1 ==> sub.end == self.end)
                    },
                }
            },
        }
    }

    /// Makes the iterator for a goal: the complete items of the row of
    /// `parse_state` for `start` that belong to a rule called `name` and end
    /// as `end` asks are to be tried, in the order of the row.
    pub fn new(
        grammar: &Grammar,
        parse_state: &Vec<Vec<Completed>>,
        input: &Vec<char>,
        name: &String,
        start: usize,
        end: Uncertain,
    ) -> (iterator: NodeIterator)
        requires
            start <= input@.len(),
        ensures
            iterator.wf(grammar@, input@),
            iterator.goal_name() == name@,
            iterator.goal_start() == start,
            iterator.goal_end() == end,
            iterator.upcoming() == (if start < parse_state@.len() {
                matching_from(grammar@, parse_state@[start as int]@, name@, end, 0)
            } else {
                Seq::empty()
            }),
            iterator.model() == Search::fresh(grammar@, rows(parse_state@), name@, start, end),
    {
        let rule_count = grammar.len();
        let mut candidates: Vec<Completed> = Vec::new();
        if start < parse_state.len() {
            let row = &parse_state[start];
            let mut i: usize = row.len();
            while i > 0
                invariant
                    i <= row@.len(),
                    rule_count == grammar@.len(),
                    reversed(candidates@) == matching_from(grammar@, row@, name@, end, i as nat),
                    forall|k: int|
                        0 <= k < candidates@.len() ==> (#[trigger] candidates@[k]).rule
                            < grammar@.len() && grammar@[candidates@[k].rule as int].name == name@,
                decreases i,
            {
                i -= 1;
                let item = row[i];
                let ghost before = candidates@;
                if item.rule < rule_count {
                    if *grammar.index(item.rule).name() == *name && end.allows(item.end) {
                        candidates.push(item);
                        assert(candidates@.drop_last() == before);
                    }
                }
            }
        }
        let ghost stack = candidates@;
        let current = candidates.pop();
        proof {
            if stack.len() > 0 {
                assert(candidates@ == stack.drop_last());
            }
        }
        let iterator = NodeIterator {
            name: name.clone(),
            current,
            candidates,
            progress: Vec::new(),
            pending: None,
            backtracking: false,
            start,
            end,
        };
        proof {
            let fresh = Search::fresh(grammar@, rows(parse_state@), name@, start, end);
            assert(iterator.model().chosen =~= fresh.chosen);
            assert(iterator.model().upcoming == fresh.upcoming);
        }
        iterator
    }
}

impl NodeIterator {
    /// The goal of the iterator: the name, the start and the limit.
    pub open spec fn goal(self) -> (Seq<char>, usize, Uncertain) {
        (self.goal_name(), self.goal_start(), self.goal_end())
    }

    /// A tree, with the position at which it ends and the iterator that
    /// gives its alternatives, can become the next decision on the stack.
    pub closed spec fn place_ok(
        self,
        rules: Seq<RuleView>,
        input: Seq<char>,
        node: Tree,
        end: usize,
        rest: Option<Box<NodeIterator>>,
    ) -> bool {
        match self.current {
            None => false,
            Some(c) => {
                let body = rules[c.rule as int].body;
                let depth = self.progress@.len() as int;
                let at = self.start + total_len(self.trees());
                &&& depth < body.len()
                &&& node.fits(rules, input, body[depth], at)
                &&& end == at + node.len()
                &&& end <= input.len()
                &&& (depth == body.len() - 1 ==> self.end.admits(end as int))
                &&& match rest {
                    None => true,
                    Some(sub) => {
                        &&& sub.wf(rules, input)
                        &&& body[depth] == SymbolView::Rule(sub.name@)
                        &&& sub.start == at
                        &&& (depth == body.len() - 1 ==> sub.end == self.end)
                    },
                }
            },
        }
    }

    /// The position at which the next child starts: the goal's start, moved
    /// on by the lengths of the trees chosen so far.
    fn child_start(&self, Ghost(rules): Ghost<Seq<RuleView>>, Ghost(input): Ghost<Seq<char>>) -> (at:
        usize)
        requires
            self.wf(rules, input),
        ensures
            at == self.start + total_len(self.trees()),
            at <= input.len(),
            at == self.model().at(),
    {
        let depth = self.progress.len();
        if depth == 0 {
            assert(self.trees() =~= Seq::<Tree>::empty());
            self.start
        } else {
            proof {
                assert(slot(depth - 1));
                assert(self.trees().drop_last() == self.trees().take(depth - 1));
                assert(self.trees().last() == self.progress@[depth - 1].node@);
            }
            self.progress[depth - 1].end
        }
    }

    /// Puts a decision on the stack.
    fn push_frame(
        &mut self,
        node: Node,
        end: usize,
        rest: Option<Box<NodeIterator>>,
        backtracking: bool,
        Ghost(rules): Ghost<Seq<RuleView>>,
        Ghost(input): Ghost<Seq<char>>,
    )
        requires
            old(self).wf(rules, input),
            old(self).place_ok(rules, input, node@, end, rest),
        ensures
            final(self).wf(rules, input),
            final(self).goal() == old(self).goal(),
            final(self).upcoming() == old(self).upcoming(),
            final(self).backtracking == backtracking,
            final(self).pending is None,
            final(self).model() == old(self).model().placed(
                node@,
                end,
                rest_model(rest),
                backtracking,
            ),
    {
        let ghost before = *self;
        let ghost tree = node@;
        self.progress.push(Frame { node, end, rest });
        self.pending = None;
        self.backtracking = backtracking;
        proof {
            assert(self.model().chosen =~= before.model().placed(
                tree,
                end,
                rest_model(rest),
                backtracking,
            ).chosen);
            let c = self.current->0;
            let body = rules[c.rule as int].body;
            let depth = before.progress@.len() as int;
            assert(self.trees() =~= before.trees().push(tree));
            assert(self.trees().take(depth) == before.trees());
            assert forall|i: int| 0 <= i < self.progress@.len() && #[trigger] slot(i) implies {
                let frame = self.progress@[i];
                let at = self.start + total_len(self.trees().take(i));
                &&& frame.node@.fits(rules, input, body[i], at)
                &&& frame.end == at + frame.node@.len()
                &&& frame.end <= input.len()
                &&& (i == body.len() - 1 ==> self.end.admits(frame.end as int))
                &&& match frame.rest {
                    None => true,
                    Some(sub) => {
                        &&& sub.wf(rules, input)
                        &&& body[i] == SymbolView::Rule(sub.name@)
                        &&& sub.start == at
                        &&& (i == body.len() - 1 ==> sub.end == self.end)
                    },
                }
            } by {
                if i < depth {
                    assert(self.progress@[i] == before.progress@[i]);
                    assert(self.trees().take(i) == before.trees().take(i));
                }
            }
        }
    }

    /// Takes the decision on top of the stack off it, if there is one.
    fn pop_frame(&mut self, Ghost(rules): Ghost<Seq<RuleView>>, Ghost(input): Ghost<Seq<char>>) -> (top:
        Option<Frame>)
        requires
            old(self).wf(rules, input),
        ensures
            final(self).wf(rules, input),
            final(self).goal() == old(self).goal(),
            final(self).upcoming() == old(self).upcoming(),
            final(self).backtracking,
            final(self).pending is None,
            top is None ==> final(self).progress@.len() == 0,
            top matches Some(frame) ==> old(self).progress@.len() > 0 && frame == old(
                self,
            ).progress@.last(),
            top is None <==> old(self).model().chosen.len() == 0,
            top is None ==> final(self).model() == old(self).model().turned(),
            top matches Some(frame) ==> final(self).model() == old(self).model().popped()
                && frame.model() == old(self).model().chosen.last(),
            top matches Some(frame) ==> final(self).place_ok(
                rules,
                input,
                frame.node@,
                frame.end,
                frame.rest,
            ),
    {
        let ghost before = *self;
        self.pending = None;
        self.backtracking = true;
        let top = self.progress.pop();
        proof {
            if before.progress@.len() > 0 {
                assert(self.model().chosen =~= before.model().popped().chosen);
            } else {
                assert(self.model().chosen =~= before.model().turned().chosen);
            }
            if before.current is Some && before.progress@.len() > 0 {
                let c = self.current->0;
                let body = rules[c.rule as int].body;
                let depth = self.progress@.len() as int;
                assert(slot(depth));
                assert(self.trees() =~= before.trees().take(depth));
                assert forall|i: int| 0 <= i < self.progress@.len() && #[trigger] slot(i) implies {
                    let frame = self.progress@[i];
                    let at = self.start + total_len(self.trees().take(i));
                    &&& frame.node@.fits(rules, input, body[i], at)
                    &&& frame.end == at + frame.node@.len()
                    &&& frame.end <= input.len()
                    &&& (i == body.len() - 1 ==> self.end.admits(frame.end as int))
                    &&& match frame.rest {
                        None => true,
                        Some(sub) => {
                            &&& sub.wf(rules, input)
                            &&& body[i] == SymbolView::Rule(sub.name@)
                            &&& sub.start == at
                            &&& (i == body.len() - 1 ==> sub.end == self.end)
                        },
                    }
                } by {
                    assert(self.progress@[i] == before.progress@[i]);
                    assert(self.trees().take(i) == before.trees().take(i));
                }
            }
        }
        top
    }

    /// Gives up the current candidate for the next one. The stack is empty
    /// when this is called.
    fn next_candidate(&mut self, Ghost(rules): Ghost<Seq<RuleView>>, Ghost(input): Ghost<Seq<char>>)
        requires
            old(self).wf(rules, input),
            old(self).progress@.len() == 0,
            old(self).upcoming().len() > 0,
        ensures
            final(self).wf(rules, input),
            final(self).goal() == old(self).goal(),
            final(self).upcoming() == old(self).upcoming().drop_first(),
            !final(self).backtracking,
            final(self).model() == old(self).model().next_candidate(),
    {
        let ghost stack = self.candidates@;
        self.pending = None;
        self.backtracking = false;
        self.current = self.candidates.pop();
        proof {
            assert(old(self).upcoming().drop_first() =~= reversed(stack));
            if stack.len() > 0 {
                assert(self.candidates@ == stack.drop_last());
                assert(self.current == Some(stack.last()));
            } else {
                assert(self.trees() =~= Seq::<Tree>::empty());
            }
            assert(self.model().chosen =~= old(self).model().next_candidate().chosen);
        }
    }

    /// Notes that the decision on top of the stack has to be revised.
    fn turn_back(&mut self, Ghost(rules): Ghost<Seq<RuleView>>, Ghost(input): Ghost<Seq<char>>)
        requires
            old(self).wf(rules, input),
        ensures
            final(self).wf(rules, input),
            final(self).goal() == old(self).goal(),
            final(self).upcoming() == old(self).upcoming(),
            final(self).backtracking,
            final(self).pending is None,
            final(self).model() == old(self).model().turned(),
    {
        self.pending = None;
        self.backtracking = true;
        proof {
            assert(self.trees() == old(self).trees());
            assert(self.model().chosen =~= old(self).model().turned().chosen);
        }
    }

    /// Builds the node of the current rule from the trees on the stack,
    /// which stand for the whole body.
    fn emit(&self, grammar: &Grammar, Ghost(input): Ghost<Seq<char>>) -> (node: Node)
        requires
            self.wf(grammar@, input),
            self.current matches Some(c) && self.progress@.len() == grammar@[c.rule as int].body.len(),
        ensures
            node@.fits(grammar@, input, SymbolView::Rule(self.goal_name()), self.start as int),
            node@.len() == total_len(self.trees()),
            self.upcoming().len() > 0,
            node@.made_by(grammar@, input, self.start as int, self.upcoming()[0].rule as int),
            node@ == (Tree::Internal {
                name: grammar@[self.upcoming()[0].rule as int].name,
                children: self.model().trees(),
            }),
    {
        let current = match self.current {
            Some(c) => c,
            None => Completed { rule: 0, end: 0 },
        };
        let mut children: Vec<Node> = Vec::new();
        let mut i: usize = 0;
        while i < self.progress.len()
            invariant
                i <= self.progress@.len(),
                children@.len() == i,
                forall|k: int| 0 <= k < i ==> (#[trigger] children@[k])@ == self.progress@[k].node@,
            decreases self.progress.len() - i,
        {
            children.push(self.progress[i].node.clone());
            i += 1;
        }
        let name = grammar.index(current.rule).name().clone();
        proof {
            let rules = grammar@;
            let r = current.rule as int;
            assert(trees_of(children@) =~= self.trees());
            assert forall|k: int| 0 <= k < self.trees().len() implies self.trees()[k].fits(
                rules,
                input,
                #[trigger] rules[r].body[k],
                self.start + total_len(self.trees().take(k)),
            ) by {
                assert(slot(k));
            }
            assert(Tree::built_by(rules, input, name@, self.trees(), self.start as int, r));
            Tree::lemma_fits_internal(rules, input, name@, self.trees(), self.start as int);
            assert(self.upcoming()[0] == current);
            assert(self.model().trees() =~= self.trees());
        }
        Node::Internal { name, children }
    }
}

impl NodeIterator {
    /// Keeps the iterator for the next symbol of the body until the search
    /// is taken up again.
    fn keep_pending(
        &mut self,
        sub: NodeIterator,
        Ghost(rules): Ghost<Seq<RuleView>>,
        Ghost(input): Ghost<Seq<char>>,
    )
        requires
            old(self).wf(rules, input),
            !old(self).backtracking,
            old(self).current matches Some(c) && {
                let body = rules[c.rule as int].body;
                let depth = old(self).progress@.len() as int;
                &&& depth < body.len()
                &&& sub.wf(rules, input)
                &&& body[depth] == SymbolView::Rule(sub.goal_name())
                &&& sub.goal_start() == old(self).goal_start() + total_len(old(self).trees())
                &&& (depth == body.len() - 1 ==> sub.goal_end() == old(self).goal_end())
            },
        ensures
            final(self).wf(rules, input),
            final(self).goal() == old(self).goal(),
            final(self).upcoming() == old(self).upcoming(),
            final(self).model() == old(self).model().waiting(sub.model()),
    {
        self.pending = Some(Box::new(sub));
        proof {
            assert(self.trees() == old(self).trees());
            assert(self.model().chosen =~= old(self).model().waiting(sub.model()).chosen);
        }
    }

    /// Tries the terminal `symbol`, which is the next symbol of the body, on
    /// the character at `at`: if it accepts the character and the leaf ends
    /// as `limit` asks, the leaf becomes the next decision on the stack;
    /// otherwise the search turns back.
    fn take_terminal(
        &mut self,
        symbol: &Symbol,
        at: usize,
        limit: Uncertain,
        input: &Vec<char>,
        Ghost(rules): Ghost<Seq<RuleView>>,
    )
        requires
            old(self).wf(rules, input@),
            symbol@.is_terminal(),
            at == old(self).goal_start() + total_len(old(self).trees()),
            old(self).current matches Some(c) && {
                let body = rules[c.rule as int].body;
                let depth = old(self).progress@.len() as int;
                &&& depth < body.len()
                &&& body[depth] == symbol@
                &&& (depth == body.len() - 1 ==> limit == old(self).goal_end())
            },
        ensures
            final(self).wf(rules, input@),
            final(self).goal() == old(self).goal(),
            final(self).upcoming() == old(self).upcoming(),
            final(self).model() == (if at < input@.len() && symbol@.accepts(input@[at as int])
                && limit.admits(at + 1) {
                old(self).model().placed(Tree::Leaf(input@[at as int]), (at + 1) as usize, None, false)
            } else {
                old(self).model().turned()
            }),
    {
        if at < input.len() && symbol.accepts(input[at]) && limit.allows(at + 1) {
            let c = input[at];
            let leaf = Node::Leaf(c);
            proof {
                lemma_leaf_fits(rules, input@, symbol@, at as int, leaf);
            }
            self.push_frame(leaf, at + 1, None, false, Ghost(rules), Ghost(input@));
        } else {
            self.turn_back(Ghost(rules), Ghost(input@));
        }
    }

    /// Takes the iterator for the next symbol of the body out of its place,
    /// if there is one.
    fn take_pending(&mut self, Ghost(rules): Ghost<Seq<RuleView>>, Ghost(input): Ghost<Seq<char>>) -> (kept:
        Option<Box<NodeIterator>>)
        requires
            old(self).wf(rules, input),
        ensures
            final(self).wf(rules, input),
            final(self).goal() == old(self).goal(),
            final(self).upcoming() == old(self).upcoming(),
            final(self).progress == old(self).progress,
            final(self).backtracking == old(self).backtracking,
            final(self).pending is None,
            kept == old(self).pending,
            rest_model(kept) == old(self).model().pending,
            final(self).model() == (Search { pending: None, ..old(self).model() }),
    {
        let kept = self.pending.take();
        proof {
            assert(self.trees() == old(self).trees());
            assert(self.model().chosen =~= old(self).model().chosen);
        }
        kept
    }

    /// Searches for the next parse tree of the goal, for at most `*fuel`
    /// steps of this iterator and of the iterators below it; the steps made
    /// are taken off `*fuel`. To go back into an iterator that was left
    /// unfinished costs no step, so that every call with some fuel brings
    /// the search forward.
    ///
    /// What the call gives, the state in which it leaves the iterator and
    /// the steps that it leaves are those of [`search`]. A tree that is
    /// returned is a parse tree for the goal's name of the text that begins
    /// at the goal's start, and it ends as the goal's limit asks. When the
    /// budget runs out the search stops where it is, and the next call takes
    /// it up again.
    pub fn next(
        &mut self,
        grammar: &Grammar,
        parse_state: &Vec<Vec<Completed>>,
        input: &Vec<char>,
        fuel: &mut usize,
    ) -> (step: Step)
        requires
            old(self).wf(grammar@, input@),
        ensures
            (final(self).model(), step@, *final(fuel) as nat) == search(
                old(self).model(),
                grammar@,
                rows(parse_state@),
                input@,
                *old(fuel) as nat,
            ),
            final(self).wf(grammar@, input@),
            final(self).goal() == old(self).goal(),
            final(self).upcoming().is_suffix_of(old(self).upcoming()),
            step matches Step::Tree(node, end) ==> {
                &&& node@.fits(
                    grammar@,
                    input@,
                    SymbolView::Rule(old(self).goal_name()),
                    old(self).goal_start() as int,
                )
                &&& end == old(self).goal_start() + node@.len()
                &&& end <= input@.len()
                &&& old(self).goal_end().admits(end as int)
                &&& final(self).upcoming().len() > 0
                &&& node@.made_by(
                    grammar@,
                    input@,
                    old(self).goal_start() as int,
                    final(self).upcoming()[0].rule as int,
                )
            },
            step is Exhausted ==> final(self).upcoming().len() == 0,
            step is Unfinished ==> *final(fuel) == 0,
            !(step is Unfinished) ==> *final(fuel) < *old(fuel),
        decreases *old(fuel), *old(self),
    {
        let ghost rules = grammar@;
        let ghost table = rows(parse_state@);
        let ghost target = search(old(self).model(), rules, table, input@, *old(fuel) as nat);
        loop
            invariant
                rules == grammar@,
                table == rows(parse_state@),
                target == search(old(self).model(), rules, table, input@, *old(fuel) as nat),
                search(self.model(), rules, table, input@, *fuel as nat) == target,
                self.wf(rules, input@),
                self.goal() == old(self).goal(),
                *fuel <= *old(fuel),
                *fuel == *old(fuel) ==> *self == *old(self),
                self.upcoming().is_suffix_of(old(self).upcoming()),
            decreases *fuel,
        {
            let ghost s = self.model();
            if *fuel == 0 {
                return Step::Unfinished;
            }
            let current = match self.current {
                None => {
                    *fuel = *fuel - 1;
                    return Step::Exhausted;
                },
                Some(c) => c,
            };
            proof {
                assert(s.upcoming[0] == current);
            }
            let body = grammar.index(current.rule).body();
            let ghost body_view = rules[current.rule as int].body;
            proof {
                assert(Seq::new(body@.len(), |i: int| body@[i]@) =~= body_view);
            }
            if self.backtracking {
                match self.pop_frame(Ghost(rules), Ghost(input@)) {
                    None => {
                        *fuel = *fuel - 1;
                        let ghost before = self.upcoming();
                        self.next_candidate(Ghost(rules), Ghost(input@));
                        proof {
                            let first = old(self).upcoming();
                            let skipped = first.len() - before.len();
                            assert(before == first.subrange(skipped, first.len() as int));
                            if before.len() > 0 {
                                assert(before.drop_first() =~= first.subrange(
                                    skipped + 1,
                                    first.len() as int,
                                ));
                            }
                            assert(self.model() == s.next_candidate());
                        }
                    },
                    Some(frame) => {
                        let ghost top = frame.model();
                        let Frame { node: chosen, end: chosen_end, rest } = frame;
                        proof {
                            assert(top == s.chosen.last());
                            assert(top.tree == chosen@);
                            assert(top.end == chosen_end);
                            assert(top.rest == rest_model(rest));
                        }
                        match rest {
                            None => {
                                *fuel = *fuel - 1;
                            },
                            Some(boxed) => {
                                let mut sub = *boxed;
                                proof {
                                    if *fuel == *old(fuel) {
                                        let last = old(self).progress@.len() - 1;
                                        vstd::std_specs::vec::axiom_vec_index_decreases(
                                            old(self).progress,
                                            last,
                                        );
                                        assert(old(self).progress@[last].rest == Some(boxed));
                                    }
                                }
                                match sub.next(grammar, parse_state, input, fuel) {
                                    Step::Tree(node, end) => {
                                        self.push_frame(
                                            node,
                                            end,
                                            Some(Box::new(sub)),
                                            false,
                                            Ghost(rules),
                                            Ghost(input@),
                                        );
                                    },
                                    Step::Exhausted => {},
                                    Step::Unfinished => {
                                        self.push_frame(
                                            chosen,
                                            chosen_end,
                                            Some(Box::new(sub)),
                                            true,
                                            Ghost(rules),
                                            Ghost(input@),
                                        );
                                        return Step::Unfinished;
                                    },
                                }
                            },
                        }
                    },
                }
            } else {
                let depth = self.progress.len();
                let at = self.child_start(Ghost(rules), Ghost(input@));
                proof {
                    assert(depth == s.chosen.len());
                }
                if depth >= body.len() {
                    *fuel = *fuel - 1;
                    let allowed = self.end.allows(at);
                    if allowed {
                        let node = self.emit(grammar, Ghost(input@));
                        self.turn_back(Ghost(rules), Ghost(input@));
                        return Step::Tree(node, at);
                    }
                    self.turn_back(Ghost(rules), Ghost(input@));
                } else {
                    let limit = if depth == body.len() - 1 {
                        self.end
                    } else {
                        self.end.minus(lowerbound_length(grammar, body, depth + 1))
                    };
                    let symbol = &body[depth];
                    proof {
                        assert(symbol@ == body_view[depth as int]);
                        assert(limit == child_limit(rules, body_view, depth as nat, s.end));
                    }
                    match symbol {
                        Symbol::Rule(name) => {
                            let mut sub = match self.take_pending(Ghost(rules), Ghost(input@)) {
                                Some(boxed) => *boxed,
                                None => {
                                    *fuel = *fuel - 1;
                                    NodeIterator::new(grammar, parse_state, input, name, at, limit)
                                },
                            };
                            proof {
                                if *fuel == *old(fuel) {
                                    assert(old(self).pending == Some(Box::new(sub)));
                                }
                            }
                            match sub.next(grammar, parse_state, input, fuel) {
                                Step::Tree(node, end) => {
                                    self.push_frame(
                                        node,
                                        end,
                                        Some(Box::new(sub)),
                                        false,
                                        Ghost(rules),
                                        Ghost(input@),
                                    );
                                },
                                Step::Exhausted => {
                                    self.turn_back(Ghost(rules), Ghost(input@));
                                },
                                Step::Unfinished => {
                                    self.keep_pending(sub, Ghost(rules), Ghost(input@));
                                    return Step::Unfinished;
                                },
                            }
                        },
                        Symbol::Literal(_) | Symbol::OneOf(_) => {
                            *fuel = *fuel - 1;
                            self.take_terminal(symbol, at, limit, input, Ghost(rules));
                        },
                    }
                }
            }
        }
    }
}

/// Every entry of `completed_upto` stands for a complete item among the
/// first `n` that began at `start`.
pub proof fn lemma_completed_members(
    rules: Seq<RuleView>,
    items: Seq<Item>,
    start: usize,
    end: usize,
    n: nat,
)
    ensures
        forall|j: int|
            0 <= j < completed_upto(rules, items, start, end, n).len() ==> {
                let entry = #[trigger] completed_upto(rules, items, start, end, n)[j];
                &&& entry.end == end
                &&& exists|k: int|
                    0 <= k < items.len() && k < n && (#[trigger] items[k]).rule == entry.rule
                        && items[k].rule < rules.len() && items[k].state.start == start
                        && items[k].complete_in(rules)
            },
    decreases n,
{
    if n > 0 {
        lemma_completed_members(rules, items, start, end, (n - 1) as nat);
        let before = completed_upto(rules, items, start, end, (n - 1) as nat);
        let now = completed_upto(rules, items, start, end, n);
        assert forall|j: int| 0 <= j < now.len() implies {
            let entry = #[trigger] now[j];
            &&& entry.end == end
            &&& exists|k: int|
                0 <= k < items.len() && k < n && (#[trigger] items[k]).rule == entry.rule
                    && items[k].rule < rules.len() && items[k].state.start == start
                    && items[k].complete_in(rules)
        } by {
            if j < before.len() {
                assert(now[j] == before[j]);
            } else {
                assert(items[n - 1].rule == now[j].rule);
            }
        }
    }
}

/// Every entry of a row of the transposed chart stands for a complete item
/// that began at the row's position, in the set at which the entry ends.
pub proof fn lemma_row_members(rules: Seq<RuleView>, chart: Seq<Seq<Item>>, start: usize, m: nat)
    requires
        chart.len() <= usize::MAX,
    ensures
        forall|j: int|
            0 <= j < transposed_row(rules, chart, start, m).len() ==> {
                let entry = #[trigger] transposed_row(rules, chart, start, m)[j];
                &&& entry.end < m
                &&& entry.end < chart.len()
                &&& exists|k: int|
                    0 <= k < chart[entry.end as int].len() && (#[trigger] chart[entry.end as int][k]).rule
                        == entry.rule && chart[entry.end as int][k].rule < rules.len()
                        && chart[entry.end as int][k].state.start == start
                        && chart[entry.end as int][k].complete_in(rules)
            },
    decreases m,
{
    if m > 0 {
        lemma_row_members(rules, chart, start, (m - 1) as nat);
        let before = transposed_row(rules, chart, start, (m - 1) as nat);
        let now = transposed_row(rules, chart, start, m);
        if m <= chart.len() {
            let last = completed_upto(rules, chart[m - 1], start, (m - 1) as usize, chart[m - 1].len());
            lemma_completed_members(rules, chart[m - 1], start, (m - 1) as usize, chart[m - 1].len());
            assert forall|j: int| 0 <= j < now.len() implies {
                let entry = #[trigger] now[j];
                &&& entry.end < m
                &&& entry.end < chart.len()
                &&& exists|k: int|
                    0 <= k < chart[entry.end as int].len() && (
                    #[trigger] chart[entry.end as int][k]).rule == entry.rule
                        && chart[entry.end as int][k].rule < rules.len()
                        && chart[entry.end as int][k].state.start == start
                        && chart[entry.end as int][k].complete_in(rules)
            } by {
                if j < before.len() {
                    assert(now[j] == before[j]);
                } else {
                    let entry = last[j - before.len()];
                    assert(now[j] == entry);
                    let items = chart[m - 1];
                    let k = choose|k: int|
                        0 <= k < items.len() && (#[trigger] items[k]).rule == entry.rule
                            && items[k].rule < rules.len() && items[k].state.start == start
                            && items[k].complete_in(rules);
                    assert(chart[entry.end as int][k].rule == entry.rule);
                }
            }
        } else {
            assert(now == before);
        }
    }
}

/// Every candidate is an entry of the row, and meets the goal.
pub proof fn lemma_matching_members(
    rules: Seq<RuleView>,
    row: Seq<Completed>,
    name: Seq<char>,
    end: Uncertain,
    from: nat,
)
    ensures
        forall|j: int|
            0 <= j < matching_from(rules, row, name, end, from).len() ==> {
                let entry = #[trigger] matching_from(rules, row, name, end, from)[j];
                is_candidate(rules, entry, name, end) && row.contains(entry)
            },
    decreases row.len() - from,
{
    if from < row.len() {
        lemma_matching_members(rules, row, name, end, from + 1);
        let rest = matching_from(rules, row, name, end, from + 1);
        let now = matching_from(rules, row, name, end, from);
        assert forall|j: int| 0 <= j < now.len() implies {
            let entry = #[trigger] now[j];
            is_candidate(rules, entry, name, end) && row.contains(entry)
        } by {
            if is_candidate(rules, row[from as int], name, end) {
                if j == 0 {
                    assert(now[0] == row[from as int]);
                } else {
                    assert(now[j] == rest[j - 1]);
                }
            }
        }
    }
}

/// Every complete item among the first `n` that began at `start` has its
/// entry in `completed_upto`.
pub proof fn lemma_completed_holds(
    rules: Seq<RuleView>,
    items: Seq<Item>,
    start: usize,
    end: usize,
    n: nat,
    k: int,
)
    requires
        0 <= k < n <= items.len(),
        items[k].rule < rules.len(),
        items[k].state.start == start,
        items[k].complete_in(rules),
    ensures
        completed_upto(rules, items, start, end, n).contains(Completed { rule: items[k].rule, end }),
    decreases n,
{
    let now = completed_upto(rules, items, start, end, n);
    let before = completed_upto(rules, items, start, end, (n - 1) as nat);
    let entry = Completed { rule: items[k].rule, end };
    if k == n - 1 {
        assert(now[now.len() - 1] == entry);
    } else {
        lemma_completed_holds(rules, items, start, end, (n - 1) as nat, k);
        let j = choose|j: int| 0 <= j < before.len() && before[j] == entry;
        assert(now[j] == entry);
    }
}

/// Every complete item of the first `m` sets that began at `start` has its
/// entry in the row of the transposed chart for `start`.
pub proof fn lemma_row_holds(
    rules: Seq<RuleView>,
    chart: Seq<Seq<Item>>,
    start: usize,
    m: nat,
    end: int,
    k: int,
)
    requires
        0 <= end < m <= chart.len() <= usize::MAX,
        0 <= k < chart[end].len(),
        chart[end][k].rule < rules.len(),
        chart[end][k].state.start == start,
        chart[end][k].complete_in(rules),
    ensures
        transposed_row(rules, chart, start, m).contains(
            Completed { rule: chart[end][k].rule, end: end as usize },
        ),
    decreases m,
{
    let now = transposed_row(rules, chart, start, m);
    let before = transposed_row(rules, chart, start, (m - 1) as nat);
    let last = completed_upto(rules, chart[m - 1], start, (m - 1) as usize, chart[m - 1].len());
    let entry = Completed { rule: chart[end][k].rule, end: end as usize };
    if end == m - 1 {
        lemma_completed_holds(rules, chart[end], start, end as usize, chart[end].len(), k);
        let j = choose|j: int| 0 <= j < last.len() && last[j] == entry;
        assert(now[before.len() + j] == entry);
    } else {
        lemma_row_holds(rules, chart, start, (m - 1) as nat, end, k);
        let j = choose|j: int| 0 <= j < before.len() && before[j] == entry;
        assert(now[j] == entry);
    }
}

/// Every entry of the row from index `from` on that meets the goal is a
/// candidate.
pub proof fn lemma_matching_holds(
    rules: Seq<RuleView>,
    row: Seq<Completed>,
    name: Seq<char>,
    end: Uncertain,
    from: nat,
    j: int,
)
    requires
        from <= j < row.len(),
        is_candidate(rules, row[j], name, end),
    ensures
        matching_from(rules, row, name, end, from).contains(row[j]),
    decreases row.len() - from,
{
    let now = matching_from(rules, row, name, end, from);
    let rest = matching_from(rules, row, name, end, from + 1);
    if j == from {
        assert(now[0] == row[j]);
    } else {
        lemma_matching_holds(rules, row, name, end, from + 1, j);
        let i = choose|i: int| 0 <= i < rest.len() && rest[i] == row[j];
        if is_candidate(rules, row[from as int], name, end) {
            assert(now[i + 1] == row[j]);
        } else {
            assert(now[i] == row[j]);
        }
    }
}

/// The lazy sequence of the parse trees of an input: the trees are searched
/// for one at a time, as they are asked for.
pub struct Trees<'a> {
    grammar: &'a Grammar,
    input: Vec<char>,
    parse_state: Vec<Vec<Completed>>,
    root: NodeIterator,
}

impl<'a> Trees<'a> {
    /// The rules of the grammar.
    pub closed spec fn rules(self) -> Seq<RuleView> {
        self.grammar@
    }

    /// The input.
    pub closed spec fn text(self) -> Seq<char> {
        self.input@
    }

    /// The name that the root of each tree carries.
    pub closed spec fn symbol(self) -> Seq<char> {
        self.root.goal_name()
    }

    /// The complete items from which a tree may still be built, the one
    /// that is being tried first.
    pub closed spec fn candidates(self) -> Seq<Completed> {
        self.root.upcoming()
    }

    /// The state of the search for the next tree.
    pub closed spec fn state(self) -> Search {
        self.root.model()
    }

    /// The transposed chart in which the search looks for complete items.
    pub closed spec fn table(self) -> Seq<Seq<Completed>> {
        rows(self.parse_state@)
    }

    /// The invariant of the sequence: the iterator at its root is sound,
    /// and its goal is a tree that covers the whole input.
    pub closed spec fn wf(self) -> bool {
        &&& self.root.wf(self.grammar@, self.input@)
        &&& self.root.goal_start() == 0
        &&& self.root.goal_end() == Uncertain::Known(self.input@.len() as usize)
        &&& self.input@.len() <= usize::MAX
    }

    /// The sequence belongs to the chart of its input: as long as a
    /// candidate is left, the input is one that the recogniser accepts.
    pub open spec fn from_chart(self) -> bool {
        self.candidates().len() > 0 ==> recognised(self.rules(), self.text())
    }

    /// Searches for the next parse tree, for at most `fuel` steps: what the
    /// call gives and the state in which it leaves the search are those of
    /// [`search`].
    ///
    /// A tree that is returned is a parse tree of the whole input for the
    /// start symbol: its leaves, read from left to right, are the input. It
    /// is built by the rule of the first candidate that is left. The
    /// candidates are tried in their order and never taken up again; once
    /// none is left the sequence is exhausted, and it yields no tree then.
    /// So a sequence that belongs to the chart of its input yields a tree
    /// only for an input that the recogniser accepts. `Unfinished` tells
    /// that the steps ran out: the next call goes on where this one stopped.
    pub fn next_tree(&mut self, fuel: usize) -> (step: Step)
        requires
            old(self).wf(),
        ensures
            final(self).wf(),
            final(self).rules() == old(self).rules(),
            final(self).text() == old(self).text(),
            final(self).symbol() == old(self).symbol(),
            final(self).table() == old(self).table(),
            final(self).state() == search(
                old(self).state(),
                old(self).rules(),
                old(self).table(),
                old(self).text(),
                fuel as nat,
            ).0,
            step@ == search(
                old(self).state(),
                old(self).rules(),
                old(self).table(),
                old(self).text(),
                fuel as nat,
            ).1,
            final(self).candidates().is_suffix_of(old(self).candidates()),
            old(self).from_chart() ==> final(self).from_chart(),
            step matches Step::Tree(node, end) ==> {
                &&& node@.fits(
                    old(self).rules(),
                    old(self).text(),
                    SymbolView::Rule(old(self).symbol()),
                    0,
                )
                &&& node@.leaves() == old(self).text()
                &&& end == old(self).text().len()
                &&& final(self).candidates().len() > 0
                &&& node@.made_by(
                    old(self).rules(),
                    old(self).text(),
                    0,
                    final(self).candidates()[0].rule as int,
                )
                &&& (old(self).from_chart() ==> recognised(old(self).rules(), old(self).text()))
            },
            step is Exhausted ==> final(self).candidates().len() == 0,
    {
        let mut budget = fuel;
        let step = self.root.next(self.grammar, &self.parse_state, &self.input, &mut budget);
        proof {
            if let Step::Tree(node, end) = &step {
                lemma_fits_leaves(
                    node@,
                    self.grammar@,
                    self.input@,
                    SymbolView::Rule(self.root.goal_name()),
                    0,
                );
                assert(self.input@.subrange(0, self.input@.len() as int) == self.input@);
            }
        }
        step
    }
}

impl Node {
    /// The lazy sequence of the parse trees that the finished chart
    /// `parse_state` holds for `input` and the given start symbol. The
    /// candidates for the root are the complete items of the chart that
    /// began at position 0, belong to a rule called `start_symbol` and end
    /// at the end of the input, in the order of the chart.
    pub fn from_parse_state<'a>(
        start_symbol: &String,
        grammar: &'a Grammar,
        parse_state: &Vec<StateSet>,
        input: Vec<char>,
    ) -> (trees: Trees<'a>)
        ensures
            trees.wf(),
            trees.rules() == grammar@,
            trees.text() == input@,
            trees.symbol() == start_symbol@,
            trees.table() == transposed(grammar@, chart_items(parse_state@)),
            trees.state() == Search::fresh(
                grammar@,
                trees.table(),
                start_symbol@,
                0,
                Uncertain::Known(input@.len() as usize),
            ),
            trees.candidates() == (if parse_state@.len() > 0 {
                matching_from(
                    grammar@,
                    transposed_row(grammar@, chart_items(parse_state@), 0, parse_state@.len()),
                    start_symbol@,
                    Uncertain::Known(input@.len() as usize),
                    0,
                )
            } else {
                Seq::empty()
            }),
    {
        let table = transpose(grammar, parse_state);
        let length = input.len();
        let root = NodeIterator::new(
            grammar,
            &table,
            &input,
            start_symbol,
            0,
            Uncertain::Known(length),
        );
        Trees { grammar, input, parse_state: table, root }
    }
}

/// The text of a list of trees: each tree's text behind a space.
pub open spec fn rendered_all(trees: Seq<Tree>) -> Seq<char>
    decreases trees, 0nat,
{
    if trees.len() == 0 {
        Seq::empty()
    } else {
        rendered_all(trees.drop_last()) + seq![' '] + trees.last().rendered()
    }
}

impl Tree {
    /// The text of a tree: a leaf is its character, and an internal node is
    /// its name, an opening brace, its children and a closing brace, with a
    /// space before each child and before the closing brace.
    pub open spec fn rendered(self) -> Seq<char>
        decreases self, 1nat,
    {
        match self {
            Tree::Leaf(c) => seq![c],
            Tree::Internal { name, children } => name + seq![' ', '{'] + rendered_all(children)
                + seq![' ', '}'],
        }
    }
}

/// The sum of the lengths of the first trees of a list is no more than the
/// sum of all.
pub proof fn lemma_total_len_take(trees: Seq<Tree>, n: int)
    requires
        0 <= n <= trees.len(),
    ensures
        total_len(trees.take(n)) <= total_len(trees),
    decreases trees.len() - n,
{
    if n < trees.len() {
        lemma_total_len_take(trees, n + 1);
        assert(trees.take(n + 1).drop_last() == trees.take(n));
    } else {
        assert(trees.take(n) == trees);
    }
}

/// Appends one character to a string.
///
/// Calls `String::push` of the standard library, which appends the given
/// character to the end of the string.
#[verifier::external_body]
fn push_char(text: &mut String, c: char)
    ensures
        final(text)@ == old(text)@.push(c),
{
    text.push(c)
}

/// The number of characters that the given nodes cover together.
pub fn length(nodes: &Vec<Node>) -> (total: usize)
    requires
        total_len(trees_of(nodes@)) <= usize::MAX,
    ensures
        total == total_len(trees_of(nodes@)),
    decreases nodes,
{
    let ghost trees = trees_of(nodes@);
    let mut total: usize = 0;
    let mut i: usize = 0;
    while i < nodes.len()
        invariant
            i <= nodes.len(),
            trees == trees_of(nodes@),
            total_len(trees) <= usize::MAX,
            total == total_len(trees.take(i as int)),
        decreases nodes.len() - i,
    {
        proof {
            vstd::std_specs::vec::axiom_vec_index_decreases(*nodes, i as int);
            lemma_total_len_take(trees, i + 1);
            assert(trees.take(i + 1).drop_last() == trees.take(i as int));
            assert(trees.take(i + 1).last() == nodes@[i as int]@);
        }
        total = total + nodes[i].len();
        i += 1;
    }
    assert(trees.take(nodes@.len() as int) == trees);
    total
}

/// Appends the text of each of the given nodes, behind a space each.
fn render_all(nodes: &Vec<Node>, text: &mut String)
    ensures
        final(text)@ == old(text)@ + rendered_all(trees_of(nodes@)),
    decreases nodes,
{
    let ghost trees = trees_of(nodes@);
    let mut i: usize = 0;
    assert(old(text)@ + rendered_all(trees.take(0)) =~= old(text)@);
    while i < nodes.len()
        invariant
            i <= nodes.len(),
            trees == trees_of(nodes@),
            text@ == old(text)@ + rendered_all(trees.take(i as int)),
        decreases nodes.len() - i,
    {
        proof {
            vstd::std_specs::vec::axiom_vec_index_decreases(*nodes, i as int);
            assert(trees.take(i + 1).drop_last() == trees.take(i as int));
            assert(trees.take(i + 1).last() == nodes@[i as int]@);
        }
        push_char(text, ' ');
        nodes[i].render_into(text);
        assert(text@ =~= old(text)@ + rendered_all(trees.take(i + 1)));
        i += 1;
    }
    assert(trees.take(nodes@.len() as int) == trees);
}

impl Node {
    /// The length of the node in characters.
    pub fn len(&self) -> (n: usize)
        requires
            self@.len() <= usize::MAX,
        ensures
            n == self@.len(),
        decreases self,
    {
        match self {
            Node::Leaf(_) => 1,
            Node::Internal { name: _, children } => length(children),
        }
    }

    /// Appends the text of the node to `text`.
    pub fn render_into(&self, text: &mut String)
        ensures
            final(text)@ == old(text)@ + self@.rendered(),
        decreases self,
    {
        match self {
            Node::Leaf(c) => {
                push_char(text, *c);
            },
            Node::Internal { name, children } => {
                text.append(name.as_str());
                push_char(text, ' ');
                push_char(text, '{');
                render_all(children, text);
                push_char(text, ' ');
                push_char(text, '}');
                assert(text@ =~= old(text)@ + self@.rendered());
            },
        }
    }

    /// The text of the node: a leaf is its character, and an internal node
    /// is written `name { child child }`.
    pub fn to_string(&self) -> (text: String)
        ensures
            text@ == self@.rendered(),
    {
        let mut text = String::new();
        self.render_into(&mut text);
        assert(text@ =~= self@.rendered());
        text
    }
}

} // verus!
