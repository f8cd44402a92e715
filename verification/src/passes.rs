//! The phases of chart parsing as functions from chart to chart. They fix the order in
//! which edges are added and the histories that are kept. Prediction and scanning add
//! no identity that the chart holds. A pass of completion adds no identity that the
//! chart held when the pass began; what the pass itself finds in several ways it adds
//! once for each, so that every history of it is kept.

use crate::chart::{
    completed, completes, has_item, item_bound, predicted, predicts, realized, realizes,
    shifted, shifts, span_limit, with_edge, with_edge_unless, EdgeModel, Item,
};
use crate::grammar::{GrammarModel, Sym};
use vstd::prelude::*;

verus! {

/// The chart after the rules at positions below `upto` were predicted from `src`, one
/// after the other.
pub open spec fn predict_rules(
    g: GrammarModel,
    privileged: Set<Sym>,
    chart: Seq<EdgeModel>,
    src: Item,
    upto: int,
) -> Seq<EdgeModel>
    decreases upto,
{
    if upto <= 0 {
        chart
    } else {
        let sofar = predict_rules(g, privileged, chart, src, upto - 1);
        if predicts(g, privileged, src, upto - 1) {
            with_edge(sofar, predicted(src, upto - 1), Seq::empty())
        } else {
            sofar
        }
    }
}

/// The chart after prediction from the edges of `before` at positions below `upto`,
/// one after the other.
pub open spec fn predict_edges(
    g: GrammarModel,
    privileged: Set<Sym>,
    before: Seq<EdgeModel>,
    upto: int,
) -> Seq<EdgeModel>
    decreases upto,
{
    if upto <= 0 {
        before
    } else {
        predict_rules(
            g,
            privileged,
            predict_edges(g, privileged, before, upto - 1),
            before[upto - 1].item,
            g.rules.len() as int,
        )
    }
}

/// The chart after the predict phase.
pub open spec fn after_predict(g: GrammarModel, privileged: Set<Sym>, chart: Seq<EdgeModel>) -> Seq<
    EdgeModel,
> {
    predict_edges(g, privileged, chart, chart.len() as int)
}

/// The chart after `src` was scanned: first the realization of a privileged symbol, if
/// the grammar has the rule for it, then the shift over a matching token.
pub open spec fn scan_edge(
    g: GrammarModel,
    privileged: Set<Sym>,
    input: Seq<Sym>,
    chart: Seq<EdgeModel>,
    src: Item,
) -> Seq<EdgeModel> {
    let first = if exists|r: int| realizes(g, privileged, input, src, r) {
        with_edge(
            chart,
            realized(src, choose|r: int| realizes(g, privileged, input, src, r)),
            Seq::empty(),
        )
    } else {
        chart
    };
    if shifts(g, input, src) {
        with_edge(first, shifted(src), Seq::empty())
    } else {
        first
    }
}

/// The chart after the edges of `before` at positions below `upto` were scanned, one
/// after the other.
pub open spec fn scan_edges(
    g: GrammarModel,
    privileged: Set<Sym>,
    input: Seq<Sym>,
    before: Seq<EdgeModel>,
    upto: int,
) -> Seq<EdgeModel>
    decreases upto,
{
    if upto <= 0 {
        before
    } else {
        scan_edge(
            g,
            privileged,
            input,
            scan_edges(g, privileged, input, before, upto - 1),
            before[upto - 1].item,
        )
    }
}

/// The chart after the scan phase.
pub open spec fn after_scan(
    g: GrammarModel,
    privileged: Set<Sym>,
    input: Seq<Sym>,
    chart: Seq<EdgeModel>,
) -> Seq<EdgeModel> {
    scan_edges(g, privileged, input, chart, chart.len() as int)
}

/// The chart after edge `a` of `before` completed the edges of `before` at positions
/// below `upto`, one after the other. What `before` holds is not added again; what was
/// added since is.
pub open spec fn complete_pairs(
    g: GrammarModel,
    chart: Seq<EdgeModel>,
    before: Seq<EdgeModel>,
    a: int,
    upto: int,
) -> Seq<EdgeModel>
    decreases upto,
{
    if upto <= 0 {
        chart
    } else {
        let sofar = complete_pairs(g, chart, before, a, upto - 1);
        let b = upto - 1;
        if completes(g, before[b].item, before[a].item) {
            with_edge_unless(
                sofar,
                before,
                completed(before[b].item, before[a].item),
                before[b].history.push(a as usize),
            )
        } else {
            sofar
        }
    }
}

/// The chart after the edges of `before` at positions below `upto` completed the edges
/// of `before`, one after the other.
pub open spec fn complete_edges(g: GrammarModel, before: Seq<EdgeModel>, upto: int) -> Seq<
    EdgeModel,
>
    decreases upto,
{
    if upto <= 0 {
        before
    } else {
        complete_pairs(
            g,
            complete_edges(g, before, upto - 1),
            before,
            upto - 1,
            before.len() as int,
        )
    }
}

/// The chart after one pass of completion.
pub open spec fn after_complete_pass(g: GrammarModel, chart: Seq<EdgeModel>) -> Seq<EdgeModel> {
    complete_edges(g, chart, chart.len() as int)
}

/// The chart after `n` passes of completion.
pub open spec fn after_complete_passes(g: GrammarModel, chart: Seq<EdgeModel>, n: nat) -> Seq<
    EdgeModel,
>
    decreases n,
{
    if n == 0 {
        chart
    } else {
        after_complete_pass(g, after_complete_passes(g, chart, (n - 1) as nat))
    }
}

/// `result` is reached from `chart` by passes of completion, and one more adds nothing.
pub open spec fn completion_ends_at(
    g: GrammarModel,
    chart: Seq<EdgeModel>,
    result: Seq<EdgeModel>,
) -> bool {
    &&& after_complete_pass(g, result) == result
    &&& exists|n: nat| result == #[trigger] after_complete_passes(g, chart, n)
}

/// The chart after the complete phase: after as many passes as add something.
pub open spec fn after_complete(g: GrammarModel, chart: Seq<EdgeModel>) -> Seq<EdgeModel> {
    choose|result: Seq<EdgeModel>| completion_ends_at(g, chart, result)
}

/// The chart after one round of predict, scan and complete.
pub open spec fn after_round(
    g: GrammarModel,
    privileged: Set<Sym>,
    input: Seq<Sym>,
    chart: Seq<EdgeModel>,
) -> Seq<EdgeModel> {
    after_complete(g, after_scan(g, privileged, input, after_predict(g, privileged, chart)))
}

/// The chart after `n` rounds.
pub open spec fn after_rounds(
    g: GrammarModel,
    privileged: Set<Sym>,
    input: Seq<Sym>,
    chart: Seq<EdgeModel>,
    n: nat,
) -> Seq<EdgeModel>
    decreases n,
{
    if n == 0 {
        chart
    } else {
        after_round(g, privileged, input, after_rounds(g, privileged, input, chart, (n - 1) as nat))
    }
}

/// More rounds than this no parse takes: the number of items that fit the grammar and
/// end within the input, or within the chart that the parse starts from.
pub open spec fn round_limit(g: GrammarModel, chart: Seq<EdgeModel>, input_len: int) -> int {
    item_bound(
        g,
        if span_limit(chart) > input_len {
            span_limit(chart)
        } else {
            input_len
        },
    )
}

/// `result` is the chart after the first number of rounds at which the chart holds
/// `goal`, or at which one more round adds nothing; and that number is below the limit.
pub open spec fn rounds_end_at(
    g: GrammarModel,
    privileged: Set<Sym>,
    input: Seq<Sym>,
    chart: Seq<EdgeModel>,
    goal: Item,
    result: Seq<EdgeModel>,
) -> bool {
    exists|n: nat|
        {
            &&& n < round_limit(g, chart, input.len() as int)
            &&& result == #[trigger] after_rounds(g, privileged, input, chart, n)
            &&& has_item(result, goal) || after_round(g, privileged, input, result) == result
            &&& forall|m: nat|
                m < n ==> {
                    let reached = #[trigger] after_rounds(g, privileged, input, chart, m);
                    !has_item(reached, goal) && after_round(g, privileged, input, reached)
                        != reached
                }
        }
}

/// Prediction from an edge that calls for no rule adds nothing.
pub proof fn lemma_predict_rules_idle(
    g: GrammarModel,
    privileged: Set<Sym>,
    chart: Seq<EdgeModel>,
    src: Item,
    upto: int,
)
    requires
        forall|r: int| !#[trigger] predicts(g, privileged, src, r),
    ensures
        predict_rules(g, privileged, chart, src, upto) == chart,
    decreases upto,
{
    if upto > 0 {
        lemma_predict_rules_idle(g, privileged, chart, src, upto - 1);
    }
}

/// An edge that is not complete completes nothing.
pub proof fn lemma_complete_pairs_idle(
    g: GrammarModel,
    chart: Seq<EdgeModel>,
    before: Seq<EdgeModel>,
    a: int,
    upto: int,
)
    requires
        !before[a].item.is_complete(g),
    ensures
        complete_pairs(g, chart, before, a, upto) == chart,
    decreases upto,
{
    if upto > 0 {
        lemma_complete_pairs_idle(g, chart, before, a, upto - 1);
    }
}

/// Once a pass of completion adds nothing, no later pass adds anything.
pub proof fn lemma_complete_passes_stay(g: GrammarModel, chart: Seq<EdgeModel>, n: nat, more: nat)
    requires
        after_complete_pass(g, after_complete_passes(g, chart, n)) == after_complete_passes(
            g,
            chart,
            n,
        ),
    ensures
        after_complete_passes(g, chart, n + more) == after_complete_passes(g, chart, n),
    decreases more,
{
    if more > 0 {
        lemma_complete_passes_stay(g, chart, n, (more - 1) as nat);
    }
}

/// The complete phase has one result: the chart after the first pass that adds nothing.
pub proof fn lemma_after_complete(g: GrammarModel, chart: Seq<EdgeModel>, n: nat)
    requires
        after_complete_pass(g, after_complete_passes(g, chart, n)) == after_complete_passes(
            g,
            chart,
            n,
        ),
    ensures
        after_complete(g, chart) == after_complete_passes(g, chart, n),
{
    let reached = after_complete_passes(g, chart, n);
    assert(completion_ends_at(g, chart, reached));
    let chosen = after_complete(g, chart);
    assert(completion_ends_at(g, chart, chosen));
    let m = choose|m: nat| chosen == #[trigger] after_complete_passes(g, chart, m);
    if m <= n {
        lemma_complete_passes_stay(g, chart, m, (n - m) as nat);
    } else {
        lemma_complete_passes_stay(g, chart, n, (m - n) as nat);
    }
}

} // verus!
