//! Grammars: an ordered list of rules together with the names of the rules
//! that can derive the empty string.
use vstd::prelude::*;
use crate::rule::{is_reserved, locally_nullable, name_set, names_contain, Rule, RuleView};
use crate::symbol::SymbolView;
use crate::utils::{lemma_distinct_bounded, GrammarError};

verus! {

/// The views of a list of rules.
pub open spec fn rule_views(rules: Seq<Rule>) -> Seq<RuleView> {
    Seq::new(rules.len(), |i: int| rules[i]@)
}

/// A set of names is closed when it holds the name of every rule that is
/// nullable given the set.
pub open spec fn closed_under(rules: Seq<RuleView>, names: Set<Seq<char>>) -> bool {
    forall|i: int|
        0 <= i < rules.len() && locally_nullable(#[trigger] rules[i], names) ==> names.contains(
            rules[i].name,
        )
}

/// The nullable names of a list of rules: the least closed set, that is, the
/// names that every closed set holds.
pub open spec fn nullable_set(rules: Seq<RuleView>) -> Set<Seq<char>> {
    Set::new(
        |name: Seq<char>|
            forall|names: Set<Seq<char>>| #[trigger]
                closed_under(rules, names) ==> names.contains(name),
    )
}

/// The indices below `n` of the rules called `name`, in increasing order.
pub open spec fn rules_named_upto(rules: Seq<RuleView>, name: Seq<char>, n: nat) -> Seq<usize>
    decreases n,
{
    if n == 0 {
        Seq::empty()
    } else {
        let before = rules_named_upto(rules, name, (n - 1) as nat);
        if n <= rules.len() && rules[n - 1].name == name {
            before.push((n - 1) as usize)
        } else {
            before
        }
    }
}

/// The indices of all the rules called `name`, in the order of the grammar.
pub open spec fn rules_named(rules: Seq<RuleView>, name: Seq<char>) -> Seq<usize> {
    rules_named_upto(rules, name, rules.len())
}

/// The indices that `rules_named_upto` lists are exactly those below `n` of
/// the rules with that name, and they come in strictly increasing order.
pub proof fn lemma_rules_named_upto(rules: Seq<RuleView>, name: Seq<char>, n: nat)
    requires
        n <= rules.len() <= usize::MAX,
    ensures
        forall|k: int|
            0 <= k < rules_named_upto(rules, name, n).len() ==> {
                let r = #[trigger] rules_named_upto(rules, name, n)[k];
                r < n && rules[r as int].name == name
            },
        forall|r: int|
            0 <= r < n && (#[trigger] rules[r]).name == name ==> rules_named_upto(
                rules,
                name,
                n,
            ).contains(r as usize),
        forall|j: int, k: int|
            0 <= j < k < rules_named_upto(rules, name, n).len() ==> rules_named_upto(
                rules,
                name,
                n,
            )[j] < rules_named_upto(rules, name, n)[k],
    decreases n,
{
    if n > 0 {
        lemma_rules_named_upto(rules, name, (n - 1) as nat);
        let before = rules_named_upto(rules, name, (n - 1) as nat);
        let now = rules_named_upto(rules, name, n);
        assert forall|r: int| 0 <= r < n && (#[trigger] rules[r]).name == name implies now.contains(
            r as usize,
        ) by {
            if r < n - 1 {
                let k = choose|k: int| 0 <= k < before.len() && before[k] == r as usize;
                assert(now[k] == r as usize);
            } else {
                assert(now[now.len() - 1] == r as usize);
            }
        }
    }
}

/// True if some rule is called `name`.
pub open spec fn is_rule_name(rules: Seq<RuleView>, name: Seq<char>) -> bool {
    exists|i: int| 0 <= i < rules.len() && (#[trigger] rules[i]).name == name
}

/// What holds of the list of names while the nullable names are being
/// collected: every name in it is nullable and is the name of some rule, and
/// no name occurs twice.
pub open spec fn partial_nullables(rules: Seq<RuleView>, names: Seq<String>) -> bool {
    &&& forall|j: int| 0 <= j < names.len() ==> nullable_set(rules).contains((#[trigger] names[j])@)
    &&& forall|j: int| 0 <= j < names.len() ==> is_rule_name(rules, (#[trigger] names[j])@)
    &&& forall|j: int, k: int|
        0 <= j < k < names.len() ==> (#[trigger] names[j])@ != (#[trigger] names[k])@
}

/// A rule that is nullable given only nullable names has a nullable name.
pub proof fn lemma_nullable_step(rules: Seq<RuleView>, known: Set<Seq<char>>, i: int)
    requires
        0 <= i < rules.len(),
        known.subset_of(nullable_set(rules)),
        locally_nullable(rules[i], known),
    ensures
        nullable_set(rules).contains(rules[i].name),
{
    assert forall|names: Set<Seq<char>>| #[trigger] closed_under(rules, names) implies names.contains(
        rules[i].name,
    ) by {
        assert forall|k: int| 0 <= k < rules[i].body.len() implies match #[trigger] rules[i].body[k] {
            SymbolView::Rule(name) => name == rules[i].name || names.contains(name),
            _ => false,
        } by {
            match rules[i].body[k] {
                SymbolView::Rule(name) => {
                    if name != rules[i].name {
                        assert(known.contains(name));
                        assert(nullable_set(rules).contains(name));
                    }
                },
                _ => {},
            }
        }
        assert(locally_nullable(rules[i], names));
    }
}

/// The nullable names are a fixed point of one more pass over the rules: the
/// set is closed, and each name in it is the name of a rule that is nullable
/// given the set. A second run of the computation therefore adds nothing and
/// removes nothing.
pub proof fn lemma_nullable_fixpoint(rules: Seq<RuleView>)
    ensures
        closed_under(rules, nullable_set(rules)),
        forall|name: Seq<char>| #[trigger]
            nullable_set(rules).contains(name) ==> exists|i: int|
                0 <= i < rules.len() && (#[trigger] rules[i]).name == name && locally_nullable(
                    rules[i],
                    nullable_set(rules),
                ),
{
    let lfp = nullable_set(rules);
    assert forall|i: int| 0 <= i < rules.len() && locally_nullable(
        #[trigger] rules[i],
        lfp,
    ) implies lfp.contains(rules[i].name) by {
        lemma_nullable_step(rules, lfp, i);
    }
    let next = Set::new(
        |name: Seq<char>|
            exists|i: int|
                0 <= i < rules.len() && (#[trigger] rules[i]).name == name && locally_nullable(
                    rules[i],
                    lfp,
                ),
    );
    assert(next.subset_of(lfp));
    assert forall|i: int| 0 <= i < rules.len() && locally_nullable(
        #[trigger] rules[i],
        next,
    ) implies next.contains(rules[i].name) by {
        assert forall|k: int| 0 <= k < rules[i].body.len() implies match #[trigger] rules[i].body[k] {
            SymbolView::Rule(name) => name == rules[i].name || lfp.contains(name),
            _ => false,
        } by {
            match rules[i].body[k] {
                SymbolView::Rule(name) => {
                    if name != rules[i].name {
                        assert(next.contains(name));
                    }
                },
                _ => {},
            }
        }
        assert(locally_nullable(rules[i], lfp));
    }
    assert(closed_under(rules, next));
    assert forall|name: Seq<char>| #[trigger] lfp.contains(name) implies exists|i: int|
        0 <= i < rules.len() && (#[trigger] rules[i]).name == name && locally_nullable(
            rules[i],
            lfp,
        ) by {
        assert(next.contains(name));
    }
}

/// A list of distinct names, each the name of some rule, is no longer than
/// the list of rules.
pub proof fn lemma_names_bounded(rules: Seq<RuleView>, names: Seq<String>)
    requires
        partial_nullables(rules, names),
    ensures
        names.len() <= rules.len(),
{
    let witness = Seq::new(
        names.len(),
        |j: int| choose|i: int| 0 <= i < rules.len() && (#[trigger] rules[i]).name == names[j]@,
    );
    assert forall|j: int| 0 <= j < witness.len() implies 0 <= #[trigger] witness[j] < rules.len()
        && rules[witness[j]].name == names[j]@ by {
        assert(is_rule_name(rules, names[j]@));
    }
    assert forall|j: int, k: int| 0 <= j < witness.len() && 0 <= k < witness.len() && j != k implies witness[j]
        != witness[k] by {
        assert(rules[witness[j]].name == names[j]@);
        assert(rules[witness[k]].name == names[k]@);
        if j < k {
            assert(names[j]@ != names[k]@);
        } else {
            assert(names[k]@ != names[j]@);
        }
    }
    lemma_distinct_bounded(witness, rules.len() as int);
}

/// One pass over the rules: the name of each rule that is nullable given
/// the names collected so far joins them, unless it is there already.
fn nullable_pass(rules: &Vec<Rule>, nullables: &mut Vec<String>)
    requires
        partial_nullables(rule_views(rules@), old(nullables)@),
    ensures
        partial_nullables(rule_views(rules@), final(nullables)@),
        final(nullables)@.len() >= old(nullables)@.len(),
        final(nullables)@.len() == old(nullables)@.len() ==> closed_under(
            rule_views(rules@),
            name_set(final(nullables)@),
        ),
{
    let ghost views = rule_views(rules@);
    let ghost before = nullables@;
    let mut i: usize = 0;
    while i < rules.len()
        invariant
            i <= rules.len(),
            views == rule_views(rules@),
            partial_nullables(views, nullables@),
            nullables@.len() >= before.len(),
            nullables@.len() == before.len() ==> nullables@ == before,
            nullables@.len() == before.len() ==> forall|k: int|
                0 <= k < i && locally_nullable(#[trigger] views[k], name_set(before))
                    ==> name_set(before).contains(views[k].name),
        decreases rules.len() - i,
    {
        let rule = &rules[i];
        assert(rule@ == views[i as int]);
        if rule.is_nullable(nullables) {
            proof {
                assert(name_set(nullables@).subset_of(nullable_set(views)));
                lemma_nullable_step(views, name_set(nullables@), i as int);
            }
            if !names_contain(nullables, rule.name()) {
                let ghost prior = nullables@;
                let name = rule.name().clone();
                nullables.push(name);
                proof {
                    assert(nullables@ == prior.push(name));
                    assert forall|j: int| 0 <= j < nullables@.len() implies is_rule_name(
                        views,
                        (#[trigger] nullables@[j])@,
                    ) by {
                        if j < prior.len() {
                            assert(nullables@[j] == prior[j]);
                        } else {
                            assert(views[i as int].name == nullables@[j]@);
                        }
                    }
                    assert forall|j: int, k: int| 0 <= j < k < nullables@.len() implies (
                    #[trigger] nullables@[j])@ != (#[trigger] nullables@[k])@ by {
                        assert(nullables@[j] == prior[j]);
                        if k < prior.len() {
                            assert(nullables@[k] == prior[k]);
                        } else {
                            assert(!name_set(prior).contains(name@));
                        }
                    }
                }
            }
        }
        i += 1;
    }
}

/// Computes the names of the nullable rules: starting from no names, passes
/// over the rules are repeated until one adds nothing.
pub fn find_nullable_rules(rules: &Vec<Rule>) -> (nullables: Vec<String>)
    ensures
        name_set(nullables@) == nullable_set(rule_views(rules@)),
        partial_nullables(rule_views(rules@), nullables@),
{
    let ghost views = rule_views(rules@);
    let mut nullables: Vec<String> = Vec::new();
    let mut count: usize = 0;
    let mut settled = false;
    nullable_pass(rules, &mut nullables);
    proof {
        lemma_names_bounded(views, nullables@);
    }
    if nullables.len() == 0 {
        settled = true;
    }
    while count < nullables.len()
        invariant
            views == rule_views(rules@),
            partial_nullables(views, nullables@),
            count <= nullables@.len() <= rules@.len(),
            settled == (count == nullables@.len()),
            settled ==> closed_under(views, name_set(nullables@)),
        decreases rules@.len() - count,
    {
        count = nullables.len();
        nullable_pass(rules, &mut nullables);
        proof {
            lemma_names_bounded(views, nullables@);
        }
        settled = count == nullables.len();
    }
    proof {
        assert(closed_under(views, name_set(nullables@)));
        assert(name_set(nullables@) =~= nullable_set(views));
    }
    nullables
}

/// A grammar suitable for Earley parsing: a non-empty ordered list of rules,
/// none with a reserved name, and the names of the nullable rules. The name
/// of the first rule is the start symbol.
#[derive(Debug)]
pub struct Grammar {
    rules: Vec<Rule>,
    nullables: Vec<String>,
}

impl View for Grammar {
    type V = Seq<RuleView>;

    closed spec fn view(&self) -> Seq<RuleView> {
        rule_views(self.rules@)
    }
}

/// What every grammar's list of rules satisfies: there is a rule, no rule
/// has a reserved name, and the list and the bodies have lengths that the
/// machine can count.
pub open spec fn valid_rules(rules: Seq<RuleView>) -> bool {
    &&& 0 < rules.len() <= usize::MAX
    &&& forall|i: int| 0 <= i < rules.len() ==> !is_reserved((#[trigger] rules[i]).name)
    &&& forall|i: int| 0 <= i < rules.len() ==> (#[trigger] rules[i]).body.len() <= usize::MAX
}

impl Grammar {
    #[verifier::type_invariant]
    spec fn inv(self) -> bool {
        &&& valid_rules(rule_views(self.rules@))
        &&& name_set(self.nullables@) == nullable_set(rule_views(self.rules@))
    }

    /// Constructs a grammar from a list of rules. The first rule is the root
    /// rule. Alternatives are written as several rules with the same name.
    ///
    /// Fails with [`GrammarError::EmptyGrammar`] when the list is empty, and
    /// with [`GrammarError::ReservedName`] when it is not and the name of some
    /// rule begins with `@`.
    pub fn new(rules: Vec<Rule>) -> (result: Result<Grammar, GrammarError>)
        ensures
            result is Ok <==> valid_rules(rule_views(rules@)),
            result matches Ok(grammar) ==> grammar@ == rule_views(rules@),
            result matches Err(e) ==> e == (if rules@.len() == 0 {
                GrammarError::EmptyGrammar
            } else {
                GrammarError::ReservedName
            }),
    {
        if rules.len() == 0 {
            return Err(GrammarError::EmptyGrammar);
        }
        let mut i: usize = 0;
        while i < rules.len()
            invariant
                i <= rules.len(),
                forall|k: int| 0 <= k < i ==> !is_reserved((#[trigger] rule_views(rules@)[k]).name),
                forall|k: int|
                    0 <= k < i ==> (#[trigger] rule_views(rules@)[k]).body.len() <= usize::MAX,
            decreases rules.len() - i,
        {
            let body_len: usize = rules[i].body().len();
            assert(rule_views(rules@)[i as int].body.len() == body_len);
            let probe = Rule::new(rules[i].name().clone(), Vec::new());
            if probe.is_err() {
                assert(is_reserved(rule_views(rules@)[i as int].name));
                return Err(GrammarError::ReservedName);
            }
            i += 1;
        }
        let nullables = find_nullable_rules(&rules);
        Ok(Grammar { rules, nullables })
    }

    /// Does nothing when it runs. A caller learns from it what holds of
    /// the rules of every grammar.
    pub fn recall_validity(&self)
        ensures
            valid_rules(self@),
    {
        proof {
            use_type_invariant(self);
        }
    }

    /// The number of rules.
    pub fn len(&self) -> (n: usize)
        ensures
            n == self@.len(),
            valid_rules(self@),
    {
        proof {
            use_type_invariant(self);
        }
        self.rules.len()
    }

    /// The name of the first rule.
    pub fn start_symbol(&self) -> (name: &String)
        ensures
            valid_rules(self@),
            name@ == self@[0].name,
    {
        proof {
            use_type_invariant(self);
        }
        self.rules[0].name()
    }

    /// The indices of the rules called `name`, in the order of the grammar.
    pub fn get_rules_by_name(&self, name: &String) -> (found: Vec<usize>)
        ensures
            found@ == rules_named(self@, name@),
    {
        let mut found: Vec<usize> = Vec::new();
        let mut i: usize = 0;
        while i < self.rules.len()
            invariant
                i <= self.rules.len(),
                found@ == rules_named_upto(self@, name@, i as nat),
            decreases self.rules.len() - i,
        {
            assert(self@[i as int] == self.rules@[i as int]@);
            if *self.rules[i].name() == *name {
                found.push(i);
            }
            i += 1;
        }
        found
    }

    /// True if `name` is the name of a nullable rule.
    pub fn rule_is_nullable(&self, name: &String) -> (nullable: bool)
        ensures
            nullable == nullable_set(self@).contains(name@),
    {
        proof {
            use_type_invariant(self);
        }
        names_contain(&self.nullables, name)
    }

    /// The rule at position `idx` of the grammar.
    pub fn index(&self, idx: usize) -> (rule: &Rule)
        requires
            idx < self@.len(),
        ensures
            rule@ == self@[idx as int],
    {
        &self.rules[idx]
    }

    /// The names of the nullable rules, each once.
    pub fn nullable_names(&self) -> (names: &Vec<String>)
        ensures
            name_set(names@) == nullable_set(self@),
    {
        proof {
            use_type_invariant(self);
        }
        &self.nullables
    }
}

} // verus!
