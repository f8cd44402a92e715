//! Chart parsing as deduction: which items follow from the seed by the inference rules,
//! whatever the order in which a parser finds them.

use crate::chart::{
    accepting_item, chart_ok, completed, completes, has_item, history_extends,
    inferred, inferred_from, predicted, predicted_below, predicts, realized, realized_below,
    realizes, saturated, seed_item, shifted, shifted_below, shifts, EdgeModel, Item,
};
use crate::derivation::{
    all_terminals, heads_tagged, last_non_terminal, lemma_rewrite_inner,
    lemma_rewrite_keeps_tail, rewrite,
};
use crate::grammar::{GrammarModel, Production, Sym};
use vstd::prelude::*;

verus! {

/// Item `k` of the sequence follows from items before it by one of the inference rules.
pub open spec fn item_follows(
    g: GrammarModel,
    privileged: Set<Sym>,
    input: Seq<Sym>,
    items: Seq<Item>,
    k: int,
) -> bool {
    ||| exists|b: int, r: int|
        0 <= b < k && #[trigger] predicts(g, privileged, items[b], r) && items[k] == predicted(
            items[b],
            r,
        )
    ||| exists|b: int, r: int|
        0 <= b < k && #[trigger] realizes(g, privileged, input, items[b], r) && items[k]
            == realized(items[b], r)
    ||| exists|b: int|
        0 <= b < k && shifts(g, input, #[trigger] items[b]) && items[k] == shifted(items[b])
    ||| exists|b: int, a: int|
        0 <= b < k && 0 <= a < k && #[trigger] completes(g, items[b], items[a]) && items[k]
            == completed(items[b], items[a])
}

/// The sequence is a deduction: it starts with the seed, and every later item follows
/// from items before it.
pub open spec fn is_deduction(
    g: GrammarModel,
    privileged: Set<Sym>,
    start_rule: int,
    input: Seq<Sym>,
    items: Seq<Item>,
) -> bool {
    &&& items.len() >= 1
    &&& items[0] == seed_item(start_rule)
    &&& forall|k: int|
        1 <= k < items.len() ==> #[trigger] item_follows(g, privileged, input, items, k)
}

/// Some deduction ends with the item.
pub open spec fn deducible(
    g: GrammarModel,
    privileged: Set<Sym>,
    start_rule: int,
    input: Seq<Sym>,
    it: Item,
) -> bool {
    exists|items: Seq<Item>| #[trigger]
        is_deduction(g, privileged, start_rule, input, items) && items.last() == it
}

/// The input is recognized: the item that accepts it is deducible.
pub open spec fn recognizes(
    g: GrammarModel,
    privileged: Set<Sym>,
    start_rule: int,
    input: Seq<Sym>,
) -> bool {
    deducible(g, privileged, start_rule, input, accepting_item(g, start_rule, input.len() as int))
}

/// The identities of the edges up to and with position `k`.
pub open spec fn items_upto(chart: Seq<EdgeModel>, k: int) -> Seq<Item> {
    Seq::new((k + 1) as nat, |i: int| chart[i].item)
}

/// Nothing but the deducible: in a chart that grew from the seed by the inference rules
/// alone, the identity of every edge is deducible.
pub proof fn lemma_chart_deducible(
    g: GrammarModel,
    privileged: Set<Sym>,
    start_rule: int,
    input: Seq<Sym>,
    chart: Seq<EdgeModel>,
    k: int,
)
    requires
        chart_ok(g, privileged, start_rule, chart),
        inferred_from(g, privileged, input, chart, 1),
        0 <= k < chart.len(),
    ensures
        deducible(g, privileged, start_rule, input, chart[k].item),
{
    let items = items_upto(chart, k);
    assert forall|j: int| 1 <= j < items.len() implies #[trigger] item_follows(
        g,
        privileged,
        input,
        items,
        j,
    ) by {
        assert(inferred(g, privileged, input, chart, j));
        if predicted_below(g, privileged, chart, j, j) {
            let (b, r) = choose|b: int, r: int|
                {
                    &&& 0 <= b < j
                    &&& #[trigger] predicts(g, privileged, chart[b].item, r)
                    &&& chart[j].item == predicted(chart[b].item, r)
                    &&& chart[j].history.len() == 0
                };
            assert(predicts(g, privileged, items[b], r) && items[j] == predicted(items[b], r));
        } else if realized_below(g, privileged, input, chart, j, j) {
            let (b, r) = choose|b: int, r: int|
                {
                    &&& 0 <= b < j
                    &&& #[trigger] realizes(g, privileged, input, chart[b].item, r)
                    &&& chart[j].item == realized(chart[b].item, r)
                    &&& chart[j].history.len() == 0
                };
            assert(realizes(g, privileged, input, items[b], r) && items[j] == realized(
                items[b],
                r,
            ));
        } else if shifted_below(g, input, chart, j, j) {
            let b = choose|b: int|
                {
                    &&& 0 <= b < j
                    &&& shifts(g, input, (#[trigger] chart[b]).item)
                    &&& chart[j].item == shifted(chart[b].item)
                    &&& chart[j].history.len() == 0
                };
            assert(shifts(g, input, items[b]) && items[j] == shifted(items[b]));
        } else {
            let (b, a) = choose|b: int, a: int|
                {
                    &&& 0 <= b < j
                    &&& 0 <= a < j
                    &&& #[trigger] completes(g, chart[b].item, chart[a].item)
                    &&& chart[j].item == completed(chart[b].item, chart[a].item)
                    &&& history_extends(chart[j].history, chart[b].history, a)
                };
            assert(completes(g, items[b], items[a]) && items[j] == completed(items[b], items[a]));
        }
    }
    assert(is_deduction(g, privileged, start_rule, input, items));
    assert(items.last() == chart[k].item);
}

/// All of the deducible: a chart to which no inference rule adds anything holds every
/// item of every deduction.
pub proof fn lemma_saturated_holds(
    g: GrammarModel,
    privileged: Set<Sym>,
    start_rule: int,
    input: Seq<Sym>,
    chart: Seq<EdgeModel>,
    items: Seq<Item>,
    k: int,
)
    requires
        chart_ok(g, privileged, start_rule, chart),
        saturated(g, privileged, input, chart),
        is_deduction(g, privileged, start_rule, input, items),
        0 <= k < items.len(),
    ensures
        has_item(chart, items[k]),
    decreases k,
{
    if k == 0 {
        assert(chart[0].item == items[0]);
    } else {
        assert(item_follows(g, privileged, input, items, k));
        if exists|b: int, r: int|
            0 <= b < k && #[trigger] predicts(g, privileged, items[b], r) && items[k] == predicted(
                items[b],
                r,
            ) {
            let (b, r) = choose|b: int, r: int|
                0 <= b < k && #[trigger] predicts(g, privileged, items[b], r) && items[k]
                    == predicted(items[b], r);
            lemma_saturated_holds(g, privileged, start_rule, input, chart, items, b);
            let c = choose|c: int| 0 <= c < chart.len() && (#[trigger] chart[c]).item == items[b];
            assert(predicts(g, privileged, chart[c].item, r));
        } else if exists|b: int, r: int|
            0 <= b < k && #[trigger] realizes(g, privileged, input, items[b], r) && items[k]
                == realized(items[b], r) {
            let (b, r) = choose|b: int, r: int|
                0 <= b < k && #[trigger] realizes(g, privileged, input, items[b], r) && items[k]
                    == realized(items[b], r);
            lemma_saturated_holds(g, privileged, start_rule, input, chart, items, b);
            let c = choose|c: int| 0 <= c < chart.len() && (#[trigger] chart[c]).item == items[b];
            assert(realizes(g, privileged, input, chart[c].item, r));
        } else if exists|b: int|
            0 <= b < k && shifts(g, input, #[trigger] items[b]) && items[k] == shifted(items[b]) {
            let b = choose|b: int|
                0 <= b < k && shifts(g, input, #[trigger] items[b]) && items[k] == shifted(
                    items[b],
                );
            lemma_saturated_holds(g, privileged, start_rule, input, chart, items, b);
            let c = choose|c: int| 0 <= c < chart.len() && (#[trigger] chart[c]).item == items[b];
            assert(shifts(g, input, chart[c].item));
        } else {
            let (b, a) = choose|b: int, a: int|
                0 <= b < k && 0 <= a < k && #[trigger] completes(g, items[b], items[a]) && items[k]
                    == completed(items[b], items[a]);
            lemma_saturated_holds(g, privileged, start_rule, input, chart, items, b);
            lemma_saturated_holds(g, privileged, start_rule, input, chart, items, a);
            let c = choose|c: int| 0 <= c < chart.len() && (#[trigger] chart[c]).item == items[b];
            let d = choose|d: int| 0 <= d < chart.len() && (#[trigger] chart[d]).item == items[a];
            assert(completes(g, chart[c].item, chart[d].item));
        }
    }
}

/// A chart that grew from the seed by the inference rules alone, and to which they add
/// nothing more, holds an item if and only if the item is deducible.
pub proof fn lemma_saturated_exact(
    g: GrammarModel,
    privileged: Set<Sym>,
    start_rule: int,
    input: Seq<Sym>,
    chart: Seq<EdgeModel>,
    it: Item,
)
    requires
        chart_ok(g, privileged, start_rule, chart),
        inferred_from(g, privileged, input, chart, 1),
        saturated(g, privileged, input, chart),
    ensures
        has_item(chart, it) <==> deducible(g, privileged, start_rule, input, it),
{
    if has_item(chart, it) {
        let k = choose|k: int| 0 <= k < chart.len() && (#[trigger] chart[k]).item == it;
        lemma_chart_deducible(g, privileged, start_rule, input, chart, k);
    }
    if deducible(g, privileged, start_rule, input, it) {
        let items = choose|items: Seq<Item>| #[trigger]
            is_deduction(g, privileged, start_rule, input, items) && items.last() == it;
        lemma_saturated_holds(g, privileged, start_rule, input, chart, items, items.len() - 1);
    }
}

/// Every step is a production of the grammar.
pub open spec fn steps_in_grammar(g: GrammarModel, steps: Seq<Production>) -> bool {
    forall|i: int| 0 <= i < steps.len() ==> g.rules.contains(#[trigger] steps[i])
}

/// The grammar derives `out` from `form`: productions of the grammar, applied in turn
/// to the last non-terminal, rewrite the one to the other.
pub open spec fn derives(g: GrammarModel, form: Seq<Sym>, out: Seq<Sym>) -> bool {
    exists|steps: Seq<Production>|
        steps_in_grammar(g, steps) && #[trigger] rewrite(form, steps) == Some(out)
}

/// What an item claims of the input: the grammar derives the input under the item's
/// span from the matched part of the item's right side.
pub open spec fn item_holds(g: GrammarModel, input: Seq<Sym>, it: Item) -> bool {
    &&& it.fits(g)
    &&& it.end <= input.len()
    &&& derives(g, g.rules[it.rule].rhs.subrange(0, it.dot), input.subrange(it.start, it.end))
}

/// Every item of a deduction holds of the input, whatever symbols are privileged, if
/// the left sides carry the non-terminal tag and the input holds terminals only.
pub proof fn lemma_deduction_holds(
    g: GrammarModel,
    privileged: Set<Sym>,
    start_rule: int,
    input: Seq<Sym>,
    items: Seq<Item>,
    k: int,
)
    requires
        heads_tagged(g),
        all_terminals(input),
        0 <= start_rule < g.rules.len(),
        is_deduction(g, privileged, start_rule, input, items),
        0 <= k < items.len(),
    ensures
        item_holds(g, input, items[k]),
    decreases k,
{
    let it = items[k];
    let none = Seq::<Production>::empty();
    if k == 0 {
        assert(g.rules[it.rule].rhs.subrange(0, 0) =~= input.subrange(0, 0));
        assert(steps_in_grammar(g, none));
        assert(rewrite(g.rules[it.rule].rhs.subrange(0, 0), none) == Some(input.subrange(0, 0)));
    } else {
        assert(item_follows(g, privileged, input, items, k));
        if exists|b: int, r: int|
            0 <= b < k && #[trigger] predicts(g, privileged, items[b], r) && items[k] == predicted(
                items[b],
                r,
            ) {
            let (b, r) = choose|b: int, r: int|
                0 <= b < k && #[trigger] predicts(g, privileged, items[b], r) && items[k]
                    == predicted(items[b], r);
            lemma_deduction_holds(g, privileged, start_rule, input, items, b);
            assert(g.rules[it.rule].rhs.subrange(0, 0) =~= input.subrange(it.start, it.end));
            assert(steps_in_grammar(g, none));
            assert(rewrite(g.rules[it.rule].rhs.subrange(0, 0), none) == Some(
                input.subrange(it.start, it.end),
            ));
        } else if exists|b: int, r: int|
            0 <= b < k && #[trigger] realizes(g, privileged, input, items[b], r) && items[k]
                == realized(items[b], r) {
            let (b, r) = choose|b: int, r: int|
                0 <= b < k && #[trigger] realizes(g, privileged, input, items[b], r) && items[k]
                    == realized(items[b], r);
            lemma_deduction_holds(g, privileged, start_rule, input, items, b);
            let rhs = g.rules[it.rule].rhs;
            assert(rhs =~= seq![input[items[b].end]]);
            assert(rhs.subrange(0, 1) =~= input.subrange(it.start, it.end));
            assert(steps_in_grammar(g, none));
            assert(rewrite(rhs.subrange(0, 1), none) == Some(input.subrange(it.start, it.end)));
        } else if exists|b: int|
            0 <= b < k && shifts(g, input, #[trigger] items[b]) && items[k] == shifted(items[b]) {
            let b = choose|b: int|
                0 <= b < k && shifts(g, input, #[trigger] items[b]) && items[k] == shifted(
                    items[b],
                );
            let src = items[b];
            lemma_deduction_holds(g, privileged, start_rule, input, items, b);
            let rhs = g.rules[it.rule].rhs;
            let matched = rhs.subrange(0, src.dot);
            let seen = input.subrange(src.start, src.end);
            let steps = choose|steps: Seq<Production>|
                steps_in_grammar(g, steps) && #[trigger] rewrite(matched, steps) == Some(seen);
            let token = seq![input[src.end]];
            assert(all_terminals(token)) by {
                assert(input[src.end] is Terminal);
            }
            lemma_rewrite_keeps_tail(matched, token, steps);
            assert(rhs.subrange(0, it.dot) =~= matched + token);
            assert(input.subrange(it.start, it.end) =~= seen + token);
            assert(rewrite(rhs.subrange(0, it.dot), steps) == Some(
                input.subrange(it.start, it.end),
            ));
        } else {
            let (b, a) = choose|b: int, a: int|
                0 <= b < k && 0 <= a < k && #[trigger] completes(g, items[b], items[a]) && items[k]
                    == completed(items[b], items[a]);
            let open = items[b];
            let done = items[a];
            lemma_deduction_holds(g, privileged, start_rule, input, items, b);
            lemma_deduction_holds(g, privileged, start_rule, input, items, a);
            let rhs = g.rules[it.rule].rhs;
            let head = rhs.subrange(0, open.dot);
            let body = g.rules[done.rule].rhs;
            assert(body.subrange(0, done.dot) =~= body);
            let left = input.subrange(open.start, open.end);
            let mid = input.subrange(done.start, done.end);
            let steps_b = choose|steps: Seq<Production>|
                steps_in_grammar(g, steps) && #[trigger] rewrite(head, steps) == Some(left);
            let steps_a = choose|steps: Seq<Production>|
                steps_in_grammar(g, steps) && #[trigger] rewrite(body, steps) == Some(mid);
            let steps = (seq![g.rules[done.rule]] + steps_a) + steps_b;
            assert(steps_in_grammar(g, steps)) by {
                assert forall|i: int| 0 <= i < steps.len() implies g.rules.contains(
                    #[trigger] steps[i],
                ) by {
                    if i == 0 {
                        assert(steps[i] == g.rules[done.rule]);
                    } else if i < 1 + steps_a.len() {
                        assert(steps[i] == steps_a[i - 1]);
                    } else {
                        assert(steps[i] == steps_b[i - 1 - steps_a.len()]);
                    }
                }
            }
            assert(steps[0] == g.rules[done.rule]);
            assert(steps.drop_first() =~= steps_a + steps_b);
            let form = rhs.subrange(0, it.dot);
            assert(form =~= head.push(rhs[open.dot]));
            assert(form.last() is NonTerminal);
            assert(last_non_terminal(form) == form.len() - 1);
            assert(form.subrange(0, form.len() - 1) + body + form.subrange(
                form.len() as int,
                form.len() as int,
            ) =~= head + body);
            assert(rewrite(form, steps) == rewrite(head + body, steps_a + steps_b));
            lemma_rewrite_inner(head, body, steps_a, mid, steps_b);
            assert(all_terminals(mid)) by {
                assert forall|i: int| 0 <= i < mid.len() implies (#[trigger] mid[i])
                    is Terminal by {
                    assert(mid[i] == input[done.start + i]);
                }
            }
            lemma_rewrite_keeps_tail(head, mid, steps_b);
            assert(left + mid =~= input.subrange(it.start, it.end));
            assert(rewrite(form, steps) == Some(input.subrange(it.start, it.end)));
        }
    }
}

/// Nothing is recognized that the grammar does not derive: if the left sides carry the
/// non-terminal tag and the input holds terminals only, then, whatever symbols are
/// privileged, the grammar derives a recognized input from the left side of the
/// starting rule.
pub proof fn lemma_recognition_sound(
    g: GrammarModel,
    privileged: Set<Sym>,
    start_rule: int,
    input: Seq<Sym>,
)
    requires
        heads_tagged(g),
        all_terminals(input),
        0 <= start_rule < g.rules.len(),
        recognizes(g, privileged, start_rule, input),
    ensures
        derives(g, seq![g.rules[start_rule].lhs], input),
{
    let goal = accepting_item(g, start_rule, input.len() as int);
    let items = choose|items: Seq<Item>| #[trigger]
        is_deduction(g, privileged, start_rule, input, items) && items.last() == goal;
    lemma_deduction_holds(g, privileged, start_rule, input, items, items.len() - 1);
    let rhs = g.rules[start_rule].rhs;
    assert(rhs.subrange(0, goal.dot) =~= rhs);
    assert(input.subrange(0, input.len() as int) =~= input);
    let inner = choose|steps: Seq<Production>|
        steps_in_grammar(g, steps) && #[trigger] rewrite(rhs, steps) == Some(input);
    let steps = seq![g.rules[start_rule]] + inner;
    assert(steps_in_grammar(g, steps)) by {
        assert forall|i: int| 0 <= i < steps.len() implies g.rules.contains(
            #[trigger] steps[i],
        ) by {
            if i == 0 {
                assert(steps[i] == g.rules[start_rule]);
            } else {
                assert(steps[i] == inner[i - 1]);
            }
        }
    }
    assert(steps.drop_first() =~= inner);
    let form = seq![g.rules[start_rule].lhs];
    assert(form.last() is NonTerminal);
    assert(last_non_terminal(form) == 0);
    assert(form.subrange(0, 0) + rhs + form.subrange(1, 1) =~= rhs);
    assert(rewrite(form, steps) == Some(input));
}

} // verus!
