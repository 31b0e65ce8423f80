//! The Earley chart as a mathematical object: what each item adds to its
//! set, what a set becomes once its cursor has passed over it, and the chart
//! that results for a grammar and an input.
use vstd::prelude::*;
use crate::grammar::{lemma_rules_named_upto, nullable_set, rules_named, valid_rules};
use crate::item::{items_from, Item, State};
use crate::rule::RuleView;
use crate::stateset::{append_new, lemma_append_new};
use crate::symbol::SymbolView;
use crate::utils::lemma_distinct_bounded;

verus! {

/// The items of one set are valid for its position and pairwise distinct.
pub open spec fn set_valid(rules: Seq<RuleView>, items: Seq<Item>, pos: nat) -> bool {
    &&& items.no_duplicates()
    &&& forall|k: int| 0 <= k < items.len() ==> (#[trigger] items[k]).valid(rules, pos)
}

/// Each set of the chart is valid for its own position.
pub open spec fn chart_valid(rules: Seq<RuleView>, chart: Seq<Seq<Item>>) -> bool {
    forall|i: int| 0 <= i < chart.len() ==> set_valid(rules, #[trigger] chart[i], i as nat)
}

/// The length of the longest body among the first `n` rules.
pub open spec fn max_body_upto(rules: Seq<RuleView>, n: nat) -> nat
    decreases n,
{
    if n == 0 {
        0
    } else {
        let before = max_body_upto(rules, (n - 1) as nat);
        if n <= rules.len() && rules[n - 1].body.len() > before {
            rules[n - 1].body.len()
        } else {
            before
        }
    }
}

/// The number of different items that are valid at position `pos`, or more:
/// a bound on the size of the set of that position.
pub open spec fn universe(rules: Seq<RuleView>, pos: nat) -> nat {
    rules.len() * (pos + 1) * (max_body_upto(rules, rules.len()) + 1)
}

proof fn lemma_max_body(rules: Seq<RuleView>, n: nat)
    requires
        n <= rules.len(),
    ensures
        forall|i: int| 0 <= i < n ==> (#[trigger] rules[i]).body.len() <= max_body_upto(rules, n),
    decreases n,
{
    if n > 0 {
        lemma_max_body(rules, (n - 1) as nat);
    }
}

proof fn lemma_code_bound(a: int, b: int, n: int, m: int)
    requires
        0 <= a < n,
        0 <= b < m,
    ensures
        0 <= a * m + b < n * m,
{
    assert(a * m + b < n * m) by (nonlinear_arith)
        requires
            0 <= a < n,
            0 <= b < m,
    {
        assert((a + 1) * m <= n * m);
    }
    assert(0 <= a * m) by (nonlinear_arith)
        requires
            0 <= a,
            0 <= m,
    ;
}

proof fn lemma_code_injective(a: int, b: int, c: int, d: int, m: int)
    requires
        0 <= b < m,
        0 <= d < m,
        a * m + b == c * m + d,
    ensures
        a == c,
        b == d,
{
    assert(a == c) by (nonlinear_arith)
        requires
            0 <= b < m,
            0 <= d < m,
            a * m + b == c * m + d,
    {
        if a < c {
            assert((a + 1) * m <= c * m);
        }
        if c < a {
            assert((c + 1) * m <= a * m);
        }
    }
}

/// A valid set is no larger than the universe of its position.
pub proof fn lemma_set_bounded(rules: Seq<RuleView>, items: Seq<Item>, pos: nat)
    requires
        set_valid(rules, items, pos),
    ensures
        items.len() <= universe(rules, pos),
{
    let longest = max_body_upto(rules, rules.len());
    let width = pos + 1;
    let depth = longest + 1;
    lemma_max_body(rules, rules.len());
    let code = |item: Item| (item.rule * width + item.state.start) * depth + item.state.progress;
    let codes = Seq::new(items.len(), |k: int| code(items[k]));
    assert forall|k: int| 0 <= k < codes.len() implies 0 <= #[trigger] codes[k] < universe(
        rules,
        pos,
    ) by {
        let item = items[k];
        assert(item.valid(rules, pos));
        lemma_code_bound(item.rule as int, item.state.start as int, rules.len() as int, width as int);
        lemma_code_bound(
            item.rule * width + item.state.start,
            item.state.progress as int,
            (rules.len() * width) as int,
            depth as int,
        );
    }
    assert forall|j: int, k: int| 0 <= j < codes.len() && 0 <= k < codes.len() && j != k implies codes[j]
        != codes[k] by {
        let x = items[j];
        let y = items[k];
        assert(x.valid(rules, pos));
        assert(y.valid(rules, pos));
        if codes[j] == codes[k] {
            lemma_code_injective(
                x.rule * width + x.state.start,
                x.state.progress as int,
                y.rule * width + y.state.start,
                y.state.progress as int,
                depth as int,
            );
            lemma_code_injective(
                x.rule as int,
                x.state.start as int,
                y.rule as int,
                y.state.start as int,
                width as int,
            );
            assert(x == y);
        }
    }
    lemma_distinct_bounded(codes, universe(rules, pos) as int);
}

/// The items of `source`, up to index `n`, that wait for the rule `name`,
/// each advanced over it, in their order.
pub open spec fn completions_upto(
    rules: Seq<RuleView>,
    source: Seq<Item>,
    name: Seq<char>,
    n: nat,
) -> Seq<Item>
    decreases n,
{
    if n == 0 {
        Seq::empty()
    } else {
        let before = completions_upto(rules, source, name, (n - 1) as nat);
        if n <= source.len() && source[n - 1].next_rule_name(rules) == Some(name) {
            before.push(source[n - 1].advanced_spec())
        } else {
            before
        }
    }
}

/// Completion: the set after the complete item `item` has been processed.
/// The items that waited for its rule in the set in which it began are
/// appended, advanced by one symbol. An item that began at the current
/// position reads the current set itself.
pub open spec fn completed(
    rules: Seq<RuleView>,
    earlier: Seq<Seq<Item>>,
    current: Seq<Item>,
    item: Item,
) -> Seq<Item> {
    let source = if item.state.start == earlier.len() {
        current
    } else {
        earlier[item.state.start as int]
    };
    append_new(
        current,
        completions_upto(rules, source, rules[item.rule as int].name, source.len()),
    )
}

/// Prediction: the set after an item that waits for the rule `name` has been
/// processed. The rules of that name are appended in the order of the
/// grammar, beginning at the current position; if the name is nullable the
/// item itself follows, advanced over the name.
pub open spec fn predicted(
    rules: Seq<RuleView>,
    earlier: Seq<Seq<Item>>,
    current: Seq<Item>,
    item: Item,
    name: Seq<char>,
) -> Seq<Item> {
    let with_rules = append_new(
        current,
        items_from(rules_named(rules, name), earlier.len() as usize),
    );
    if nullable_set(rules).contains(name) {
        append_new(with_rules, seq![item.advanced_spec()])
    } else {
        with_rules
    }
}

/// The current set after `item` has been processed. Only completions and
/// predictions change the set; a scan leaves it as it is.
pub open spec fn after_item(
    rules: Seq<RuleView>,
    earlier: Seq<Seq<Item>>,
    current: Seq<Item>,
    item: Item,
) -> Seq<Item> {
    match item.next_symbol(rules) {
        None => completed(rules, earlier, current, item),
        Some(SymbolView::Rule(name)) => predicted(rules, earlier, current, item, name),
        Some(_) => current,
    }
}

/// Scan: the item that `item` hands to the next set, if the symbol behind
/// its marker is a terminal that matches the character at `pos`. At the end
/// of the input nothing matches.
pub open spec fn scanned(rules: Seq<RuleView>, item: Item, input: Seq<char>, pos: nat) -> Option<
    Item,
> {
    match item.next_symbol(rules) {
        Some(symbol) => if pos < input.len() && symbol.accepts(input[pos as int]) {
            Some(item.advanced_spec())
        } else {
            None
        },
        None => None,
    }
}

/// A set once its cursor has passed over all of it, and the items that its
/// scans hand to the next set.
pub struct Processed {
    pub items: Seq<Item>,
    pub scans: Seq<Item>,
}

/// Runs the cursor from `cursor` to the end of `items`, where each item
/// processed may append to `items`, and collects the scanned items behind
/// `scans`. `earlier` holds the finished sets of the positions before.
pub open spec fn process(
    rules: Seq<RuleView>,
    earlier: Seq<Seq<Item>>,
    items: Seq<Item>,
    cursor: nat,
    scans: Seq<Item>,
    input: Seq<char>,
) -> Processed
    decreases universe(rules, earlier.len()) - cursor,
    when set_valid(rules, items, earlier.len())
{
    if cursor >= items.len() {
        Processed { items, scans }
    } else {
        proof {
            lemma_set_bounded(rules, items, earlier.len());
        }
        let item = items[cursor as int];
        let more = match scanned(rules, item, input, earlier.len()) {
            Some(next) => scans.push(next),
            None => scans,
        };
        process(rules, earlier, after_item(rules, earlier, items, item), cursor + 1, more, input)
    }
}

/// The outcome of building a chart: the finished sets, one for each position
/// from 0 to the length of the input, or the position at which no item could
/// scan the next character.
pub enum ChartOutcome {
    Complete(Seq<Seq<Item>>),
    Stuck(nat),
}

/// Builds the rest of the chart. `earlier` holds the finished sets and
/// `current` the items with which the set of the next position begins.
pub open spec fn chart_from(
    rules: Seq<RuleView>,
    input: Seq<char>,
    earlier: Seq<Seq<Item>>,
    current: Seq<Item>,
) -> ChartOutcome
    decreases input.len() - earlier.len(),
{
    let done = process(rules, earlier, current, 0, Seq::empty(), input);
    if earlier.len() >= input.len() {
        ChartOutcome::Complete(earlier.push(done.items))
    } else if done.scans.len() == 0 {
        ChartOutcome::Stuck(earlier.len())
    } else {
        chart_from(rules, input, earlier.push(done.items), done.scans)
    }
}

/// The items with which the first set begins: one for each rule called
/// `start_symbol`, in the order of the grammar.
pub open spec fn seeds(rules: Seq<RuleView>, start_symbol: Seq<char>) -> Seq<Item> {
    items_from(rules_named(rules, start_symbol), 0)
}

/// The chart of `input` for the grammar `rules` and the given start symbol.
pub open spec fn chart_of(rules: Seq<RuleView>, start_symbol: Seq<char>, input: Seq<char>) -> ChartOutcome {
    chart_from(rules, input, Seq::empty(), seeds(rules, start_symbol))
}

/// An item accepts when it is complete, began at position 0 and belongs to
/// a rule called `start_symbol`.
pub open spec fn accepting(rules: Seq<RuleView>, start_symbol: Seq<char>, item: Item) -> bool {
    &&& item.rule < rules.len()
    &&& rules[item.rule as int].name == start_symbol
    &&& item.state.start == 0
    &&& item.complete_in(rules)
}

/// The input is recognised when its chart is complete and the last set
/// holds an accepting item.
pub open spec fn recognised(rules: Seq<RuleView>, input: Seq<char>) -> bool {
    match chart_of(rules, rules[0].name, input) {
        ChartOutcome::Complete(chart) => exists|k: int|
            0 <= k < chart.last().len() && accepting(rules, rules[0].name, #[trigger] chart.last()[k]),
        ChartOutcome::Stuck(_) => false,
    }
}

/// Every completion is a valid item for any position from that of its
/// source on.
pub proof fn lemma_completions_valid(
    rules: Seq<RuleView>,
    source: Seq<Item>,
    name: Seq<char>,
    n: nat,
    from: nat,
    pos: nat,
)
    requires
        valid_rules(rules),
        from <= pos,
        forall|k: int| 0 <= k < source.len() ==> (#[trigger] source[k]).valid(rules, from),
    ensures
        forall|k: int|
            0 <= k < completions_upto(rules, source, name, n).len() ==> (
            #[trigger] completions_upto(rules, source, name, n)[k]).valid(rules, pos),
    decreases n,
{
    if n > 0 {
        lemma_completions_valid(rules, source, name, (n - 1) as nat, from, pos);
        let before = completions_upto(rules, source, name, (n - 1) as nat);
        let now = completions_upto(rules, source, name, n);
        assert forall|k: int| 0 <= k < now.len() implies (#[trigger] now[k]).valid(rules, pos) by {
            if k < before.len() {
                assert(now[k] == before[k]);
            } else {
                assert(source[n - 1].valid(rules, from));
                assert(now[k] == source[n - 1].advanced_spec());
            }
        }
    }
}

/// Processing an item keeps the set valid and only appends to it.
pub proof fn lemma_after_item(
    rules: Seq<RuleView>,
    earlier: Seq<Seq<Item>>,
    current: Seq<Item>,
    item: Item,
)
    requires
        valid_rules(rules),
        earlier.len() <= usize::MAX,
        chart_valid(rules, earlier),
        set_valid(rules, current, earlier.len()),
        item.valid(rules, earlier.len()),
    ensures
        set_valid(rules, after_item(rules, earlier, current, item), earlier.len()),
        current.is_prefix_of(after_item(rules, earlier, current, item)),
{
    let pos = earlier.len();
    let result = after_item(rules, earlier, current, item);
    match item.next_symbol(rules) {
        None => {
            let source = if item.state.start == earlier.len() {
                current
            } else {
                earlier[item.state.start as int]
            };
            let from = item.state.start as nat;
            if item.state.start != earlier.len() {
                assert(set_valid(rules, earlier[item.state.start as int], from));
            }
            let found = completions_upto(rules, source, rules[item.rule as int].name, source.len());
            lemma_completions_valid(rules, source, rules[item.rule as int].name, source.len(), from, pos);
            lemma_append_new(current, found);
            assert forall|k: int| 0 <= k < result.len() implies (#[trigger] result[k]).valid(
                rules,
                pos,
            ) by {
                if current.contains(result[k]) {
                } else {
                    assert(found.contains(result[k]));
                }
            }
        },
        Some(SymbolView::Rule(name)) => {
            let named = rules_named(rules, name);
            let fresh = items_from(named, pos as usize);
            lemma_rules_named_upto(rules, name, rules.len());
            let with_rules = append_new(current, fresh);
            lemma_append_new(current, fresh);
            assert forall|k: int| 0 <= k < with_rules.len() implies (#[trigger] with_rules[k]).valid(
                rules,
                pos,
            ) by {
                if current.contains(with_rules[k]) {
                } else {
                    let j = choose|j: int| 0 <= j < fresh.len() && fresh[j] == with_rules[k];
                    assert(named[j] < rules.len());
                }
            }
            let last = seq![item.advanced_spec()];
            lemma_append_new(with_rules, last);
            assert(item.advanced_spec().valid(rules, pos));
            if nullable_set(rules).contains(name) {
                assert forall|k: int| 0 <= k < result.len() implies (#[trigger] result[k]).valid(
                    rules,
                    pos,
                ) by {
                    if with_rules.contains(result[k]) {
                    } else {
                        assert(last.contains(result[k]));
                    }
                }
            }
        },
        Some(_) => {},
    }
}

/// What holds of the scanned items while a set is processed: they are
/// distinct, and each is the advanced form of an incomplete item that the
/// cursor has passed.
pub open spec fn scans_valid(
    rules: Seq<RuleView>,
    items: Seq<Item>,
    cursor: nat,
    scans: Seq<Item>,
) -> bool {
    &&& scans.no_duplicates()
    &&& forall|k: int| 0 <= k < scans.len() ==> scan_source(rules, items, cursor, #[trigger] scans[k])
}

/// Some incomplete item before the cursor advances to `scan`.
pub open spec fn scan_source(rules: Seq<RuleView>, items: Seq<Item>, cursor: nat, scan: Item) -> bool {
    exists|j: int|
        0 <= j < cursor && j < items.len() && (#[trigger] items[j]).next_symbol(rules) is Some
            && items[j].advanced_spec() == scan
}

/// Processing a valid set gives a valid set of which the old one is a
/// prefix: items are only appended, and none twice. The scanned items are
/// distinct and valid for the next position, so that they can begin its set.
pub proof fn lemma_process(
    rules: Seq<RuleView>,
    earlier: Seq<Seq<Item>>,
    items: Seq<Item>,
    cursor: nat,
    scans: Seq<Item>,
    input: Seq<char>,
)
    requires
        valid_rules(rules),
        earlier.len() <= usize::MAX,
        chart_valid(rules, earlier),
        set_valid(rules, items, earlier.len()),
        scans_valid(rules, items, cursor, scans),
    ensures
        set_valid(rules, process(rules, earlier, items, cursor, scans, input).items, earlier.len()),
        items.is_prefix_of(process(rules, earlier, items, cursor, scans, input).items),
        set_valid(
            rules,
            process(rules, earlier, items, cursor, scans, input).scans,
            earlier.len() + 1,
        ),
        scans.is_prefix_of(process(rules, earlier, items, cursor, scans, input).scans),
        earlier.len() >= input.len() ==> process(rules, earlier, items, cursor, scans, input).scans
            == scans,
    decreases universe(rules, earlier.len()) - cursor,
{
    let pos = earlier.len();
    if cursor >= items.len() {
        assert forall|k: int| 0 <= k < scans.len() implies (#[trigger] scans[k]).valid(
            rules,
            pos + 1,
        ) by {
            assert(scan_source(rules, items, cursor, scans[k]));
            let j = choose|j: int|
                0 <= j < cursor && j < items.len() && (#[trigger] items[j]).next_symbol(rules) is Some
                    && items[j].advanced_spec() == scans[k];
            assert(items[j].valid(rules, pos));
        }
    } else {
        lemma_set_bounded(rules, items, pos);
        let item = items[cursor as int];
        assert(item.valid(rules, pos));
        let grown = after_item(rules, earlier, items, item);
        lemma_after_item(rules, earlier, items, item);
        let more = match scanned(rules, item, input, pos) {
            Some(next) => scans.push(next),
            None => scans,
        };
        assert forall|k: int| 0 <= k < more.len() implies scan_source(
            rules,
            grown,
            cursor + 1,
            #[trigger] more[k],
        ) by {
            if k < scans.len() {
                assert(scan_source(rules, items, cursor, scans[k]));
                let j = choose|j: int|
                    0 <= j < cursor && j < items.len() && (#[trigger] items[j]).next_symbol(rules) is Some
                        && items[j].advanced_spec() == scans[k];
                assert(grown[j] == items[j]);
            } else {
                assert(grown[cursor as int] == item);
            }
        }
        assert(more.no_duplicates()) by {
            if more.len() > scans.len() {
                let next = item.advanced_spec();
                assert forall|k: int| 0 <= k < scans.len() implies scans[k] != next by {
                    assert(scan_source(rules, items, cursor, scans[k]));
                    let j = choose|j: int|
                        0 <= j < cursor && j < items.len() && (#[trigger] items[j]).next_symbol(rules) is Some
                            && items[j].advanced_spec() == scans[k];
                    assert(items[j].valid(rules, pos));
                    assert(items[j] != item);
                }
            }
        }
        lemma_process(rules, earlier, grown, cursor + 1, more, input);
    }
}

/// What holds of a finished chart.
pub open spec fn chart_complete(rules: Seq<RuleView>, input: Seq<char>, chart: Seq<Seq<Item>>) -> bool {
    &&& chart.len() == input.len() + 1
    &&& chart_valid(rules, chart)
}

/// Building the rest of a chart leaves the finished sets as they are, and
/// only appends to the set with which it begins. A complete chart has one
/// valid set for each position from 0 to the length of the input; a chart
/// gets stuck only before the end of the input.
pub proof fn lemma_chart_from(
    rules: Seq<RuleView>,
    input: Seq<char>,
    earlier: Seq<Seq<Item>>,
    current: Seq<Item>,
)
    requires
        valid_rules(rules),
        input.len() <= usize::MAX,
        earlier.len() <= input.len(),
        chart_valid(rules, earlier),
        set_valid(rules, current, earlier.len()),
    ensures
        match chart_from(rules, input, earlier, current) {
            ChartOutcome::Complete(chart) => {
                &&& chart_complete(rules, input, chart)
                &&& earlier.is_prefix_of(chart)
                &&& current.is_prefix_of(chart[earlier.len() as int])
            },
            ChartOutcome::Stuck(pos) => earlier.len() <= pos < input.len(),
        },
    decreases input.len() - earlier.len(),
{
    let done = process(rules, earlier, current, 0, Seq::empty(), input);
    lemma_process(rules, earlier, current, 0, Seq::empty(), input);
    let grown = earlier.push(done.items);
    assert(chart_valid(rules, grown)) by {
        assert forall|i: int| 0 <= i < grown.len() implies set_valid(
            rules,
            #[trigger] grown[i],
            i as nat,
        ) by {
            if i < earlier.len() {
                assert(grown[i] == earlier[i]);
            }
        }
    }
    if earlier.len() >= input.len() {
        assert(grown[earlier.len() as int] == done.items);
    } else if done.scans.len() == 0 {
    } else {
        lemma_chart_from(rules, input, grown, done.scans);
        match chart_from(rules, input, grown, done.scans) {
            ChartOutcome::Complete(chart) => {
                assert(chart[earlier.len() as int] == grown[earlier.len() as int]);
                assert forall|i: int| 0 <= i < earlier.len() implies earlier[i] == chart[i] by {
                    assert(chart[i] == grown[i]);
                }
            },
            ChartOutcome::Stuck(_) => {},
        }
    }
}

/// The first set of a complete chart begins with the seeds: one item for
/// each rule called after the start symbol, in the order in which the
/// grammar lists the rules, each beginning at position 0 with nothing
/// matched. Being a valid set, it holds each of them once.
pub proof fn lemma_start_set_seeding(rules: Seq<RuleView>, start_symbol: Seq<char>, input: Seq<char>)
    requires
        valid_rules(rules),
        input.len() <= usize::MAX,
    ensures
        set_valid(rules, seeds(rules, start_symbol), 0),
        forall|r: int|
            0 <= r < rules.len() && (#[trigger] rules[r]).name == start_symbol ==> seeds(
                rules,
                start_symbol,
            ).contains(Item { rule: r as usize, state: State { start: 0, progress: 0 } }),
        forall|k: int|
            0 <= k < seeds(rules, start_symbol).len() ==> {
                let seed = #[trigger] seeds(rules, start_symbol)[k];
                &&& seed.rule < rules.len()
                &&& rules[seed.rule as int].name == start_symbol
                &&& seed.state == State { start: 0, progress: 0 }
            },
        forall|j: int, k: int|
            0 <= j < k < seeds(rules, start_symbol).len() ==> (#[trigger] seeds(
                rules,
                start_symbol,
            )[j]).rule < (#[trigger] seeds(rules, start_symbol)[k]).rule,
        chart_of(rules, start_symbol, input) matches ChartOutcome::Complete(chart) ==> {
            &&& chart_complete(rules, input, chart)
            &&& seeds(rules, start_symbol).is_prefix_of(chart[0])
        },
{
    let named = rules_named(rules, start_symbol);
    let first = seeds(rules, start_symbol);
    lemma_rules_named_upto(rules, start_symbol, rules.len());
    assert forall|r: int| 0 <= r < rules.len() && (#[trigger] rules[r]).name
        == start_symbol implies first.contains(
        Item { rule: r as usize, state: State { start: 0, progress: 0 } },
    ) by {
        let k = choose|k: int| 0 <= k < named.len() && named[k] == r as usize;
        assert(first[k] == Item { rule: r as usize, state: State { start: 0, progress: 0 } });
    }
    assert forall|j: int, k: int| 0 <= j < first.len() && 0 <= k < first.len() && j != k implies first[j]
        != first[k] by {
        if j < k {
            assert(named[j] < named[k]);
        } else {
            assert(named[k] < named[j]);
        }
    }
    assert forall|k: int| 0 <= k < first.len() implies (#[trigger] first[k]).valid(rules, 0) by {
        assert(named[k] < rules.len());
    }
    lemma_chart_from(rules, input, Seq::empty(), first);
}

} // verus!
