//! Derivations: the sequence of rules that an edge's history stands for.

use crate::chart::{
    accepting_item, chart_ok, completed, completed_below, completes, ends_within,
    history_extends, inferred,
    inferred_from, lemma_inferred_ends, predicted_below, realized, realized_below, realizes,
    shifted, shifted_below, shifts, EdgeModel,
};
use crate::grammar::{GrammarModel, Production, Sym};
use vstd::prelude::*;

verus! {

/// The rules met when histories are followed from the edges at the given positions.
/// The last position comes first; each edge's rule comes before the rules of its history.
/// Only positions before `limit` count.
pub open spec fn history_trace(chart: Seq<EdgeModel>, history: Seq<usize>, limit: int) -> Seq<int>
    decreases limit, history.len(),
{
    if history.len() == 0 {
        Seq::empty()
    } else {
        let c = history.last() as int;
        let first = if 0 <= c < limit && c < chart.len() {
            seq![chart[c].item.rule] + history_trace(chart, chart[c].history, c)
        } else {
            Seq::empty()
        };
        first + history_trace(chart, history.drop_last(), limit)
    }
}

/// The rules met from edge `k`: its own rule, then those of its history.
pub open spec fn edge_trace(chart: Seq<EdgeModel>, k: int) -> Seq<int> {
    seq![chart[k].item.rule] + history_trace(chart, chart[k].history, k)
}

/// The rules met from an edge, in the chart or not: its own rule, then those of its
/// history.
pub open spec fn trace_from(chart: Seq<EdgeModel>, e: EdgeModel) -> Seq<int> {
    seq![e.item.rule] + history_trace(chart, e.history, chart.len() as int)
}

/// The productions at the given positions of the grammar.
pub open spec fn rules_at(g: GrammarModel, trace: Seq<int>) -> Seq<Production> {
    Seq::new(trace.len(), |i: int| g.rules[trace[i]])
}

/// Every position in the history lies below `limit`.
pub open spec fn history_below(history: Seq<usize>, limit: int) -> bool {
    forall|m: int| 0 <= m < history.len() ==> (#[trigger] history[m]) < limit
}

/// A larger limit changes nothing where the history lies below the smaller one.
pub proof fn lemma_history_trace_limit(
    chart: Seq<EdgeModel>,
    history: Seq<usize>,
    low: int,
    high: int,
)
    requires
        history_below(history, low),
        low <= high,
    ensures
        history_trace(chart, history, low) == history_trace(chart, history, high),
    decreases history.len(),
{
    if history.len() > 0 {
        assert(history.last() == history[history.len() - 1]);
        assert forall|m: int| 0 <= m < history.drop_last().len() implies (
        #[trigger] history.drop_last()[m]) < low by {
            assert(history.drop_last()[m] == history[m]);
        }
        lemma_history_trace_limit(chart, history.drop_last(), low, high);
    }
}

/// The trace of two histories joined is the trace of the second, then that of the first.
pub proof fn lemma_history_trace_concat(
    chart: Seq<EdgeModel>,
    first: Seq<usize>,
    second: Seq<usize>,
    limit: int,
)
    ensures
        history_trace(chart, first + second, limit) == history_trace(chart, second, limit)
            + history_trace(chart, first, limit),
    decreases second.len(),
{
    if second.len() == 0 {
        assert(first + second =~= first);
    } else {
        let joined = first + second;
        assert(joined.last() == second.last());
        assert(joined.drop_last() =~= first + second.drop_last());
        lemma_history_trace_concat(chart, first, second.drop_last(), limit);
    }
}

/// Every position in the trace is a position of a rule of the grammar.
pub open spec fn trace_in_grammar(g: GrammarModel, trace: Seq<int>) -> bool {
    forall|i: int| 0 <= i < trace.len() ==> 0 <= #[trigger] trace[i] < g.rules.len()
}

/// The trace of a history in a chart names rules of the grammar only.
pub proof fn lemma_history_trace_rules(
    g: GrammarModel,
    privileged: Set<Sym>,
    start_rule: int,
    chart: Seq<EdgeModel>,
    history: Seq<usize>,
    limit: int,
)
    requires
        chart_ok(g, privileged, start_rule, chart),
    ensures
        trace_in_grammar(g, history_trace(chart, history, limit)),
    decreases limit, history.len(),
{
    if history.len() > 0 {
        let c = history.last() as int;
        let rest = history_trace(chart, history.drop_last(), limit);
        lemma_history_trace_rules(g, privileged, start_rule, chart, history.drop_last(), limit);
        if 0 <= c < limit && c < chart.len() {
            let inner = history_trace(chart, chart[c].history, c);
            lemma_history_trace_rules(g, privileged, start_rule, chart, chart[c].history, c);
            assert(chart[c].item.fits(g));
            let first = seq![chart[c].item.rule] + inner;
            assert(trace_in_grammar(g, first)) by {
                assert forall|i: int| 0 <= i < first.len() implies 0 <= #[trigger] first[i]
                    < g.rules.len() by {
                    if i > 0 {
                        assert(first[i] == inner[i - 1]);
                    }
                }
            }
            let all = first + rest;
            assert forall|i: int| 0 <= i < all.len() implies 0 <= #[trigger] all[i]
                < g.rules.len() by {
                if i < first.len() {
                    assert(all[i] == first[i]);
                } else {
                    assert(all[i] == rest[i - first.len()]);
                }
            }
        } else {
            assert(Seq::<int>::empty() + rest =~= rest);
        }
    }
}

/// Every symbol carries the terminal tag.
pub open spec fn all_terminals(form: Seq<Sym>) -> bool {
    forall|i: int| 0 <= i < form.len() ==> #[trigger] form[i] is Terminal
}

/// The position of the last symbol with the non-terminal tag, or -1 if there is none.
pub open spec fn last_non_terminal(form: Seq<Sym>) -> int
    decreases form.len(),
{
    if form.len() == 0 {
        -1
    } else if form.last() is NonTerminal {
        form.len() - 1
    } else {
        last_non_terminal(form.drop_last())
    }
}

/// A rightmost derivation: each production in turn replaces the last non-terminal of
/// the form, whose left side it must be. The result is the form reached, or `None`
/// where a production does not apply.
pub open spec fn rewrite(form: Seq<Sym>, steps: Seq<Production>) -> Option<Seq<Sym>>
    decreases steps.len(),
{
    if steps.len() == 0 {
        Some(form)
    } else {
        let at = last_non_terminal(form);
        if at >= 0 && form[at] == steps[0].lhs {
            rewrite(
                form.subrange(0, at) + steps[0].rhs + form.subrange(at + 1, form.len() as int),
                steps.drop_first(),
            )
        } else {
            None
        }
    }
}

/// Every left side carries the non-terminal tag.
pub open spec fn heads_tagged(g: GrammarModel) -> bool {
    forall|r: int| 0 <= r < g.rules.len() ==> (#[trigger] g.rules[r]).lhs is NonTerminal
}

/// On no right side a terminal follows a non-terminal.
pub open spec fn terminals_first(g: GrammarModel) -> bool {
    forall|r: int, p: int, q: int|
        0 <= r < g.rules.len() && 0 <= p < q < g.rules[r].rhs.len() && (
        #[trigger] g.rules[r].rhs[q]) is Terminal ==> (#[trigger] g.rules[r].rhs[p]) is Terminal
}

/// The grammars whose derivations the histories record in full: every left side
/// carries the non-terminal tag, and on no right side a terminal follows a non-terminal.
pub open spec fn traceable(g: GrammarModel) -> bool {
    heads_tagged(g) && terminals_first(g)
}

/// What the edge claims: the productions of its history rewrite the matched part of
/// its right side to the input under its span.
pub open spec fn edge_sound(
    g: GrammarModel,
    input: Seq<Sym>,
    chart: Seq<EdgeModel>,
    k: int,
) -> bool {
    let e = chart[k].item;
    rewrite(
        g.rules[e.rule].rhs.subrange(0, e.dot),
        rules_at(g, history_trace(chart, chart[k].history, k)),
    ) == Some(input.subrange(e.start, e.end))
}

proof fn lemma_last_non_terminal_bounds(form: Seq<Sym>)
    ensures
        -1 <= last_non_terminal(form) < form.len(),
        last_non_terminal(form) >= 0 ==> form[last_non_terminal(form)] is NonTerminal,
        all_terminals(form) ==> last_non_terminal(form) == -1,
    decreases form.len(),
{
    if form.len() > 0 {
        lemma_last_non_terminal_bounds(form.drop_last());
        if all_terminals(form) {
            assert(form[form.len() - 1] is Terminal);
            assert forall|i: int| 0 <= i < form.drop_last().len() implies (
            #[trigger] form.drop_last()[i]) is Terminal by {
                assert(form.drop_last()[i] == form[i]);
            }
        }
    }
}

proof fn lemma_last_non_terminal_skips(form: Seq<Sym>, tail: Seq<Sym>)
    requires
        all_terminals(tail),
    ensures
        last_non_terminal(form + tail) == last_non_terminal(form),
    decreases tail.len(),
{
    if tail.len() == 0 {
        assert(form + tail =~= form);
    } else {
        let joined = form + tail;
        assert(joined.last() == tail[tail.len() - 1]);
        assert(joined.drop_last() =~= form + tail.drop_last());
        assert forall|i: int| 0 <= i < tail.drop_last().len() implies (
        #[trigger] tail.drop_last()[i]) is Terminal by {
            assert(tail.drop_last()[i] == tail[i]);
        }
        lemma_last_non_terminal_skips(form, tail.drop_last());
    }
}

proof fn lemma_last_non_terminal_shifts(head: Seq<Sym>, form: Seq<Sym>)
    requires
        last_non_terminal(form) >= 0,
    ensures
        last_non_terminal(head + form) == head.len() + last_non_terminal(form),
    decreases form.len(),
{
    let joined = head + form;
    assert(joined.last() == form.last());
    assert(joined.drop_last() =~= head + form.drop_last());
    if !(form.last() is NonTerminal) {
        lemma_last_non_terminal_shifts(head, form.drop_last());
    }
}

/// Terminals at the end of a form stay where they are.
pub proof fn lemma_rewrite_keeps_tail(form: Seq<Sym>, tail: Seq<Sym>, steps: Seq<Production>)
    requires
        all_terminals(tail),
    ensures
        rewrite(form + tail, steps) == match rewrite(form, steps) {
            Some(out) => Some(out + tail),
            None => None,
        },
    decreases steps.len(),
{
    if steps.len() > 0 {
        lemma_last_non_terminal_skips(form, tail);
        lemma_last_non_terminal_bounds(form);
        let at = last_non_terminal(form);
        let joined = form + tail;
        if at >= 0 {
            assert(joined[at] == form[at]);
            if form[at] == steps[0].lhs {
                let next = form.subrange(0, at) + steps[0].rhs + form.subrange(
                    at + 1,
                    form.len() as int,
                );
                assert(joined.subrange(0, at) + steps[0].rhs + joined.subrange(
                    at + 1,
                    joined.len() as int,
                ) =~= next + tail);
                lemma_rewrite_keeps_tail(next, tail, steps.drop_first());
            }
        }
    }
}

/// Steps that rewrite the end of a form do so whatever stands before it.
pub proof fn lemma_rewrite_inner(
    head: Seq<Sym>,
    form: Seq<Sym>,
    inner: Seq<Production>,
    out: Seq<Sym>,
    rest: Seq<Production>,
)
    requires
        rewrite(form, inner) == Some(out),
    ensures
        rewrite(head + form, inner + rest) == rewrite(head + out, rest),
    decreases inner.len(),
{
    if inner.len() == 0 {
        assert(inner + rest =~= rest);
    } else {
        let at = last_non_terminal(form);
        lemma_last_non_terminal_bounds(form);
        lemma_last_non_terminal_shifts(head, form);
        let next = form.subrange(0, at) + inner[0].rhs + form.subrange(at + 1, form.len() as int);
        let joined = head + form;
        let steps = inner + rest;
        assert(steps[0] == inner[0]);
        assert(steps.drop_first() =~= inner.drop_first() + rest);
        assert(joined[head.len() + at] == form[at]);
        assert(joined.subrange(0, head.len() + at) + inner[0].rhs + joined.subrange(
            head.len() + at + 1,
            joined.len() as int,
        ) =~= head + next);
        lemma_rewrite_inner(head, next, inner.drop_first(), out, rest);
    }
}

/// The productions of two traces joined are the productions of each, joined.
pub proof fn lemma_rules_at_concat(g: GrammarModel, first: Seq<int>, second: Seq<int>)
    ensures
        rules_at(g, first + second) == rules_at(g, first) + rules_at(g, second),
{
    assert(rules_at(g, first + second) =~= rules_at(g, first) + rules_at(g, second));
}

/// In a chart that grew from the seed by the inference rules alone, over an input of
/// terminals and for a traceable grammar, every edge is sound.
pub proof fn lemma_edge_sound(
    g: GrammarModel,
    privileged: Set<Sym>,
    start_rule: int,
    input: Seq<Sym>,
    chart: Seq<EdgeModel>,
    k: int,
)
    requires
        chart_ok(g, privileged, start_rule, chart),
        inferred_from(g, privileged, input, chart, 1),
        ends_within(chart, input.len() as int),
        traceable(g),
        all_terminals(input),
        0 <= k < chart.len(),
    ensures
        edge_sound(g, input, chart, k),
    decreases k,
{
    let e = chart[k].item;
    let hist = chart[k].history;
    assert(e.fits(g));
    assert(e.end <= input.len());
    let rhs = g.rules[e.rule].rhs;
    if k == 0 || predicted_below(g, privileged, chart, k, k) {
        assert(hist.len() == 0);
        assert(e.dot == 0 && e.start == e.end);
        assert(rhs.subrange(0, 0) =~= input.subrange(e.start, e.end));
        assert(rules_at(g, history_trace(chart, hist, k)) =~= Seq::<Production>::empty());
    } else {
        assert(inferred(g, privileged, input, chart, k));
        if realized_below(g, privileged, input, chart, k, k) {
            let (b, r) = choose|b: int, r: int|
                {
                    &&& 0 <= b < k
                    &&& #[trigger] realizes(g, privileged, input, chart[b].item, r)
                    &&& chart[k].item == realized(chart[b].item, r)
                    &&& chart[k].history.len() == 0
                };
            assert(rhs =~= seq![input[chart[b].item.end]]);
            assert(rhs.subrange(0, 1) =~= input.subrange(e.start, e.end));
            assert(rules_at(g, history_trace(chart, hist, k)) =~= Seq::<Production>::empty());
        } else if shifted_below(g, input, chart, k, k) {
            let b = choose|b: int|
                {
                    &&& 0 <= b < k
                    &&& shifts(g, input, (#[trigger] chart[b]).item)
                    &&& chart[k].item == shifted(chart[b].item)
                    &&& chart[k].history.len() == 0
                };
            let src = chart[b].item;
            lemma_edge_sound(g, privileged, start_rule, input, chart, b);
            let matched = rhs.subrange(0, src.dot);
            let steps = rules_at(g, history_trace(chart, chart[b].history, b));
            assert(rhs[src.dot] is Terminal) by {
                assert(input[src.end] is Terminal);
            }
            assert(all_terminals(matched)) by {
                assert forall|i: int| 0 <= i < matched.len() implies (#[trigger] matched[i])
                    is Terminal by {
                    assert(matched[i] == g.rules[e.rule].rhs[i]);
                    assert(g.rules[e.rule].rhs[src.dot] is Terminal);
                }
            }
            lemma_last_non_terminal_bounds(matched);
            assert(steps.len() == 0);
            assert(matched == input.subrange(src.start, src.end));
            assert(rhs.subrange(0, e.dot) =~= matched.push(rhs[src.dot]));
            assert(input.subrange(e.start, e.end) =~= input.subrange(src.start, src.end).push(
                input[src.end],
            ));
            assert(rules_at(g, history_trace(chart, hist, k)) =~= Seq::<Production>::empty());
        } else {
            assert(completed_below(g, chart, k, k));
            let (b, a) = choose|b: int, a: int|
                {
                    &&& 0 <= b < k
                    &&& 0 <= a < k
                    &&& #[trigger] completes(g, chart[b].item, chart[a].item)
                    &&& chart[k].item == completed(chart[b].item, chart[a].item)
                    &&& history_extends(chart[k].history, chart[b].history, a)
                };
            let open = chart[b].item;
            let done = chart[a].item;
            lemma_edge_sound(g, privileged, start_rule, input, chart, b);
            lemma_edge_sound(g, privileged, start_rule, input, chart, a);
            assert(open.fits(g) && done.fits(g));
            assert(done.end <= input.len());
            let head = rhs.subrange(0, open.dot);
            let body = g.rules[done.rule].rhs;
            assert(body.subrange(0, done.dot) =~= body);
            let trace_b = history_trace(chart, chart[b].history, b);
            let trace_a = history_trace(chart, chart[a].history, a);
            let steps_b = rules_at(g, trace_b);
            let steps_a = rules_at(g, trace_a);
            let mid = input.subrange(done.start, done.end);
            // the trace of the new edge: the complete edge first, then the open edge's
            assert(hist.last() == a);
            assert(history_below(chart[b].history, b));
            lemma_history_trace_limit(chart, chart[b].history, b, k);
            let trace = history_trace(chart, hist, k);
            assert(trace == (seq![done.rule] + trace_a) + trace_b);
            lemma_rules_at_concat(g, seq![done.rule] + trace_a, trace_b);
            lemma_rules_at_concat(g, seq![done.rule], trace_a);
            let steps = rules_at(g, trace);
            assert(rules_at(g, seq![done.rule]) =~= seq![g.rules[done.rule]]);
            assert(steps == (seq![g.rules[done.rule]] + steps_a) + steps_b);
            assert(steps[0] == g.rules[done.rule]);
            assert(steps.drop_first() =~= steps_a + steps_b);
            // the first step replaces the symbol behind the dot
            let form = rhs.subrange(0, e.dot);
            assert(form =~= head.push(rhs[open.dot]));
            assert(form.last() is NonTerminal);
            assert(last_non_terminal(form) == form.len() - 1);
            assert(form.subrange(0, form.len() - 1) + body + form.subrange(
                form.len() as int,
                form.len() as int,
            ) =~= head + body);
            assert(rewrite(form, steps) == rewrite(head + body, steps_a + steps_b));
            // the complete edge's steps rewrite its right side, the open edge's the rest
            lemma_rewrite_inner(head, body, steps_a, mid, steps_b);
            assert(all_terminals(mid)) by {
                assert forall|i: int| 0 <= i < mid.len() implies (#[trigger] mid[i])
                    is Terminal by {
                    assert(mid[i] == input[done.start + i]);
                }
            }
            lemma_rewrite_keeps_tail(head, mid, steps_b);
            assert(input.subrange(open.start, open.end) + mid =~= input.subrange(e.start, e.end));
        }
    }
}

/// Soundness of derivations. Take a traceable grammar, an input of terminals, and a
/// chart that grew from the seed by the inference rules alone. Then the rules that
/// the history of an accepting edge stands for are rules of the grammar, and applied
/// in turn, each to the last non-terminal, they rewrite the start symbol to the input.
pub proof fn lemma_derivation_sound(
    g: GrammarModel,
    privileged: Set<Sym>,
    start_rule: int,
    input: Seq<Sym>,
    chart: Seq<EdgeModel>,
    k: int,
)
    requires
        chart_ok(g, privileged, start_rule, chart),
        inferred_from(g, privileged, input, chart, 1),
        traceable(g),
        all_terminals(input),
        0 <= k < chart.len(),
        chart[k].item == accepting_item(g, start_rule, input.len() as int),
    ensures
        trace_in_grammar(g, edge_trace(chart, k)),
        rewrite(seq![g.rules[start_rule].lhs], rules_at(g, edge_trace(chart, k))) == Some(input),
{
    let n = input.len() as int;
    assert(chart[0].item.end <= n);
    lemma_inferred_ends(g, privileged, input, chart, 1, chart.len() as int, n);
    lemma_edge_sound(g, privileged, start_rule, input, chart, k);
    lemma_history_trace_rules(g, privileged, start_rule, chart, chart[k].history, k);
    let e = chart[k].item;
    assert(e.fits(g));
    let inner = history_trace(chart, chart[k].history, k);
    let trace = edge_trace(chart, k);
    assert forall|i: int| 0 <= i < trace.len() implies 0 <= #[trigger] trace[i] < g.rules.len() by {
        if i > 0 {
            assert(trace[i] == inner[i - 1]);
        }
    }
    let rhs = g.rules[start_rule].rhs;
    assert(rhs.subrange(0, e.dot) =~= rhs);
    assert(input.subrange(0, n) =~= input);
    let steps = rules_at(g, trace);
    lemma_rules_at_concat(g, seq![e.rule], inner);
    assert(rules_at(g, seq![e.rule]) =~= seq![g.rules[e.rule]]);
    assert(steps[0] == g.rules[start_rule]);
    assert(steps.drop_first() =~= rules_at(g, inner));
    let form = seq![g.rules[start_rule].lhs];
    assert(form.last() is NonTerminal);
    assert(last_non_terminal(form) == 0);
    assert(form.subrange(0, 0) + rhs + form.subrange(1, 1) =~= rhs);
}

} // verus!
