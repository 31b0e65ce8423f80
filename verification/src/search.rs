//! The search for parse trees as a mathematical object: the state of an
//! iterator over the trees of one goal, and what a search of so many steps
//! makes of it.
use vstd::prelude::*;
use crate::ast::{least_len, matching_from, Completed, Tree};
use crate::rule::RuleView;
use crate::symbol::SymbolView;
use crate::utils::Uncertain;

verus! {

/// What a search gives when it stops.
pub enum Outcome {
    /// The next tree, and the position of the input at which it ends.
    Tree(Tree, usize),
    /// There are no more trees.
    Exhausted,
    /// The steps ran out.
    Unfinished,
}

/// One decision of a search: the tree chosen for a symbol of the body, the
/// position at which it ends, and for a reference to a rule the search that
/// gives the other trees that could stand there.
pub struct Choice {
    pub tree: Tree,
    pub end: usize,
    pub rest: Option<Box<Search>>,
}

/// The state of the search for the trees of one goal.
pub struct Search {
    /// The name of the rules that can build the tree.
    pub name: Seq<char>,
    /// The complete items that are still to be tried; the first is the one
    /// that is being tried.
    pub upcoming: Seq<Completed>,
    /// The decisions made for the first symbols of the body that is tried.
    pub chosen: Seq<Choice>,
    /// The search for the next symbol of the body, when it has begun and
    /// has not given a tree yet.
    pub pending: Option<Box<Search>>,
    /// Whether the last decision has to be revised before the search goes
    /// on.
    pub backtracking: bool,
    /// The position at which the tree starts.
    pub start: usize,
    /// The limit on the position at which the tree ends.
    pub end: Uncertain,
}

impl Search {
    /// The search for a goal before its first step: the complete items of
    /// the row for `start` that belong to a rule called `name` and end as
    /// `end` asks are to be tried, in the order of the row.
    pub open spec fn fresh(
        rules: Seq<RuleView>,
        table: Seq<Seq<Completed>>,
        name: Seq<char>,
        start: usize,
        end: Uncertain,
    ) -> Search {
        Search {
            name,
            upcoming: if start < table.len() {
                matching_from(rules, table[start as int], name, end, 0)
            } else {
                Seq::empty()
            },
            chosen: Seq::empty(),
            pending: None,
            backtracking: false,
            start,
            end,
        }
    }

    /// The trees chosen so far.
    pub open spec fn trees(self) -> Seq<Tree> {
        Seq::new(self.chosen.len(), |i: int| self.chosen[i].tree)
    }

    /// The position at which the next child starts: where the last chosen
    /// tree ends.
    pub open spec fn at(self) -> usize {
        if self.chosen.len() == 0 {
            self.start
        } else {
            self.chosen.last().end
        }
    }

    /// The search with one more decision.
    pub open spec fn placed(
        self,
        tree: Tree,
        end: usize,
        rest: Option<Box<Search>>,
        backtracking: bool,
    ) -> Search {
        Search {
            chosen: self.chosen.push(Choice { tree, end, rest }),
            pending: None,
            backtracking,
            ..self
        }
    }

    /// The search, about to revise its last decision.
    pub open spec fn turned(self) -> Search {
        Search { pending: None, backtracking: true, ..self }
    }

    /// The search without its last decision, about to revise the one
    /// before.
    pub open spec fn popped(self) -> Search {
        Search { chosen: self.chosen.drop_last(), pending: None, backtracking: true, ..self }
    }

    /// The search with the next complete item in place of the one tried.
    pub open spec fn next_candidate(self) -> Search {
        Search { upcoming: self.upcoming.drop_first(), pending: None, backtracking: false, ..self }
    }

    /// The search with the search for its next symbol kept for later.
    pub open spec fn waiting(self, sub: Search) -> Search {
        Search { pending: Some(Box::new(sub)), ..self }
    }
}

/// The limit for the child at index `depth` of `body`: the last child ends
/// as the node does, and a child before it leaves room for the least that
/// the symbols behind it need.
pub open spec fn child_limit(
    rules: Seq<RuleView>,
    body: Seq<SymbolView>,
    depth: nat,
    end: Uncertain,
) -> Uncertain {
    if depth == body.len() - 1 {
        end
    } else {
        end.minus_spec(least_len(rules, body, depth + 1) as usize)
    }
}

/// What a search of at most `fuel` steps makes of the state `s`: the state
/// in which it stops, what it gives, and the steps that are left.
///
/// The complete items are tried in their order. For each, the body of its
/// rule is walked from left to right: a terminal takes the character at the
/// child's start if it accepts it, and a reference to a rule takes the first
/// tree of a search of its own. When every symbol has its tree, the node is
/// given, if it ends as the limit asks. Then, and whenever a symbol finds no
/// tree, the last decision is revised: its search gives the next tree, or,
/// when it has none, the decision before is revised. To go back into a
/// search that has begun costs no step; every other move costs one.
pub open spec fn search(
    s: Search,
    rules: Seq<RuleView>,
    table: Seq<Seq<Completed>>,
    input: Seq<char>,
    fuel: nat,
) -> (Search, Outcome, nat)
    decreases fuel, s,
{
    if fuel == 0 {
        (s, Outcome::Unfinished, 0)
    } else if s.upcoming.len() == 0 {
        (s, Outcome::Exhausted, (fuel - 1) as nat)
    } else {
        let rule = s.upcoming[0].rule as int;
        let body = rules[rule].body;
        if s.backtracking {
            if s.chosen.len() == 0 {
                search(s.next_candidate(), rules, table, input, (fuel - 1) as nat)
            } else {
                let top = s.chosen.last();
                match top.rest {
                    None => search(s.popped(), rules, table, input, (fuel - 1) as nat),
                    Some(sub) => {
                        let (after, outcome, left) = search(*sub, rules, table, input, fuel);
                        match outcome {
                            Outcome::Tree(tree, end) => if left < fuel {
                                search(
                                    s.popped().placed(tree, end, Some(Box::new(after)), false),
                                    rules,
                                    table,
                                    input,
                                    left,
                                )
                            } else {
                                (s, Outcome::Unfinished, 0)
                            },
                            Outcome::Exhausted => if left < fuel {
                                search(s.popped(), rules, table, input, left)
                            } else {
                                (s, Outcome::Unfinished, 0)
                            },
                            Outcome::Unfinished => (
                                s.popped().placed(top.tree, top.end, Some(Box::new(after)), true),
                                Outcome::Unfinished,
                                left,
                            ),
                        }
                    },
                }
            }
        } else {
            let depth = s.chosen.len();
            let at = s.at();
            if depth >= body.len() {
                if s.end.admits(at as int) {
                    (
                        s.turned(),
                        Outcome::Tree(Tree::Internal { name: rules[rule].name, children: s.trees() }, at),
                        (fuel - 1) as nat,
                    )
                } else {
                    search(s.turned(), rules, table, input, (fuel - 1) as nat)
                }
            } else {
                let limit = child_limit(rules, body, depth, s.end);
                match body[depth as int] {
                    SymbolView::Rule(name) => {
                        let (after, outcome, left) = match s.pending {
                            Some(sub) => search(*sub, rules, table, input, fuel),
                            None => search(
                                Search::fresh(rules, table, name, at, limit),
                                rules,
                                table,
                                input,
                                (fuel - 1) as nat,
                            ),
                        };
                        match outcome {
                            Outcome::Tree(tree, end) => if left < fuel {
                                search(
                                    s.placed(tree, end, Some(Box::new(after)), false),
                                    rules,
                                    table,
                                    input,
                                    left,
                                )
                            } else {
                                (s, Outcome::Unfinished, 0)
                            },
                            Outcome::Exhausted => if left < fuel {
                                search(s.turned(), rules, table, input, left)
                            } else {
                                (s, Outcome::Unfinished, 0)
                            },
                            Outcome::Unfinished => (s.waiting(after), Outcome::Unfinished, left),
                        }
                    },
                    terminal => if at < input.len() && terminal.accepts(input[at as int])
                        && limit.admits(at + 1) {
                        search(
                            s.placed(Tree::Leaf(input[at as int]), (at + 1) as usize, None, false),
                            rules,
                            table,
                            input,
                            (fuel - 1) as nat,
                        )
                    } else {
                        search(s.turned(), rules, table, input, (fuel - 1) as nat)
                    },
                }
            }
        }
    }
}

/// A search never gives back more steps than it was given. It stops
/// unfinished only when no step is left, and it has used a step whenever it
/// stops otherwise: so a search that goes on behind another always has fewer
/// steps than the first one had.
pub proof fn lemma_search_steps(
    s: Search,
    rules: Seq<RuleView>,
    table: Seq<Seq<Completed>>,
    input: Seq<char>,
    fuel: nat,
)
    ensures
        search(s, rules, table, input, fuel).2 <= fuel,
        search(s, rules, table, input, fuel).1 is Unfinished ==> search(
            s,
            rules,
            table,
            input,
            fuel,
        ).2 == 0,
        !(search(s, rules, table, input, fuel).1 is Unfinished) ==> search(
            s,
            rules,
            table,
            input,
            fuel,
        ).2 < fuel,
    decreases fuel, s,
{
    if fuel == 0 {
    } else if s.upcoming.len() == 0 {
    } else {
        let rule = s.upcoming[0].rule as int;
        let body = rules[rule].body;
        let less = (fuel - 1) as nat;
        if s.backtracking {
            if s.chosen.len() == 0 {
                lemma_search_steps(s.next_candidate(), rules, table, input, less);
            } else {
                let top = s.chosen.last();
                match top.rest {
                    None => {
                        lemma_search_steps(s.popped(), rules, table, input, less);
                    },
                    Some(sub) => {
                        lemma_search_steps(*sub, rules, table, input, fuel);
                        let (after, outcome, left) = search(*sub, rules, table, input, fuel);
                        match outcome {
                            Outcome::Tree(tree, end) => {
                                lemma_search_steps(
                                    s.popped().placed(tree, end, Some(Box::new(after)), false),
                                    rules,
                                    table,
                                    input,
                                    left,
                                );
                            },
                            Outcome::Exhausted => {
                                lemma_search_steps(s.popped(), rules, table, input, left);
                            },
                            Outcome::Unfinished => {},
                        }
                    },
                }
            }
        } else {
            let depth = s.chosen.len();
            let at = s.at();
            if depth >= body.len() {
                if !s.end.admits(at as int) {
                    lemma_search_steps(s.turned(), rules, table, input, less);
                }
            } else {
                let limit = child_limit(rules, body, depth, s.end);
                match body[depth as int] {
                    SymbolView::Rule(name) => {
                        match s.pending {
                            Some(sub) => {
                                lemma_search_steps(*sub, rules, table, input, fuel);
                            },
                            None => {
                                lemma_search_steps(
                                    Search::fresh(rules, table, name, at, limit),
                                    rules,
                                    table,
                                    input,
                                    less,
                                );
                            },
                        }
                        let (after, outcome, left) = match s.pending {
                            Some(sub) => search(*sub, rules, table, input, fuel),
                            None => search(
                                Search::fresh(rules, table, name, at, limit),
                                rules,
                                table,
                                input,
                                less,
                            ),
                        };
                        match outcome {
                            Outcome::Tree(tree, end) => {
                                lemma_search_steps(
                                    s.placed(tree, end, Some(Box::new(after)), false),
                                    rules,
                                    table,
                                    input,
                                    left,
                                );
                            },
                            Outcome::Exhausted => {
                                lemma_search_steps(s.turned(), rules, table, input, left);
                            },
                            Outcome::Unfinished => {},
                        }
                    },
                    terminal => {
                        if at < input.len() && terminal.accepts(input[at as int]) && limit.admits(
                            at + 1,
                        ) {
                            lemma_search_steps(
                                s.placed(Tree::Leaf(input[at as int]), (at + 1) as usize, None, false),
                                rules,
                                table,
                                input,
                                less,
                            );
                        } else {
                            lemma_search_steps(s.turned(), rules, table, input, less);
                        }
                    },
                }
            }
        }
    }
}

} // verus!
