//! Edges, the chart, and the inference rules that say which edges follow from which.
//!
//! An edge names its rule by the rule's position in the grammar, so that many edges
//! share one rule. The chart is a sequence of edges; an edge's position never changes
//! and is what later edges keep in their histories. Two edges may have the same rule,
//! dot and span and differ in their histories: one pass of completion may find an
//! identity in several ways.

use crate::grammar::{GrammarModel, Sym};
use vstd::arithmetic::div_mod::lemma_fundamental_div_mod_converse;
use vstd::prelude::*;
use vstd::set_lib::{lemma_int_range, lemma_len_subset, set_int_range};

verus! {

/// A rule, given by its position in the grammar, with a dot that marks how much of its
/// right side has been matched.
#[derive(Clone, Copy, Debug, PartialEq, Eq, Structural)]
pub struct DottedRule {
    pub rule: usize,
    pub dot_pos: usize,
}

/// A dotted rule over a span of the input, with the positions in the chart of the
/// completed edges that were consumed to reach it.
#[derive(Debug)]
pub struct Edge {
    pub d_rule: DottedRule,
    pub span: (usize, usize),
    pub history: Vec<usize>,
}

/// What identifies an edge: rule, dot and span. The history is no part of it.
pub struct Item {
    pub rule: int,
    pub dot: int,
    pub start: int,
    pub end: int,
}

/// The mathematical value of an [`Edge`].
pub struct EdgeModel {
    pub item: Item,
    pub history: Seq<usize>,
}

impl View for Edge {
    type V = EdgeModel;

    open spec fn view(&self) -> EdgeModel {
        EdgeModel {
            item: Item {
                rule: self.d_rule.rule as int,
                dot: self.d_rule.dot_pos as int,
                start: self.span.0 as int,
                end: self.span.1 as int,
            },
            history: self.history@,
        }
    }
}

impl Edge {
    /// Makes an edge.
    pub fn new(rule: usize, dot_pos: usize, start: usize, end: usize, history: Vec<usize>) -> (e:
        Edge)
        ensures
            e@ == (EdgeModel {
                item: Item {
                    rule: rule as int,
                    dot: dot_pos as int,
                    start: start as int,
                    end: end as int,
                },
                history: history@,
            }),
    {
        Edge { d_rule: DottedRule { rule, dot_pos }, span: (start, end), history }
    }
}

impl Clone for Edge {
    fn clone(&self) -> (r: Self)
        ensures
            r@ == self@,
    {
        let history = self.history.clone();
        proof {
            assert(history@ =~= self.history@);
        }
        Edge { d_rule: self.d_rule, span: (self.span.0, self.span.1), history }
    }
}

impl PartialEq for Edge {
    fn eq(&self, other: &Self) -> (r: bool) {
        self.d_rule.rule == other.d_rule.rule && self.d_rule.dot_pos == other.d_rule.dot_pos
            && self.span.0 == other.span.0 && self.span.1 == other.span.1
    }
}

impl Eq for Edge {}

impl vstd::std_specs::cmp::PartialEqSpecImpl for Edge {
    open spec fn obeys_eq_spec() -> bool {
        true
    }

    open spec fn eq_spec(&self, other: &Edge) -> bool {
        self@.item == other@.item
    }
}

/// The chart with an edge of the given identity and history added at the end, unless
/// it holds the identity already.
pub open spec fn with_edge(chart: Seq<EdgeModel>, it: Item, history: Seq<usize>) -> Seq<EdgeModel> {
    if has_item(chart, it) {
        chart
    } else {
        chart.push(EdgeModel { item: it, history })
    }
}

/// The chart with an edge of the given identity and history added at the end, unless
/// `held` holds the identity already.
pub open spec fn with_edge_unless(
    chart: Seq<EdgeModel>,
    held: Seq<EdgeModel>,
    it: Item,
    history: Seq<usize>,
) -> Seq<EdgeModel> {
    if has_item(held, it) {
        chart
    } else {
        chart.push(EdgeModel { item: it, history })
    }
}

/// The chart has the edge at a position before `upto`.
pub open spec fn has_edge(chart: Seq<EdgeModel>, e: EdgeModel, upto: int) -> bool {
    exists|k: int| 0 <= k < upto && k < chart.len() && #[trigger] chart[k] == e
}

/// The values of a sequence of edges, in order.
pub open spec fn edge_models(edges: Seq<Edge>) -> Seq<EdgeModel> {
    Seq::new(edges.len(), |i: int| edges[i]@)
}

/// The edges of the chart with the given identity, in their order.
pub open spec fn edges_with(chart: Seq<EdgeModel>, it: Item) -> Seq<EdgeModel> {
    chart.filter(|e: EdgeModel| e.item == it)
}

/// No edge before position `upto` has the identity of edge `k`.
pub open spec fn new_at(chart: Seq<EdgeModel>, k: int, upto: int) -> bool {
    forall|j: int| 0 <= j < upto ==> (#[trigger] chart[j]).item != chart[k].item
}

/// The edges whose identity no earlier edge has, in their order.
pub open spec fn first_finds(chart: Seq<EdgeModel>) -> Seq<EdgeModel>
    decreases chart.len(),
{
    if chart.len() == 0 {
        chart
    } else if has_item(chart.drop_last(), chart.last().item) {
        first_finds(chart.drop_last())
    } else {
        first_finds(chart.drop_last()).push(chart.last())
    }
}

/// The number of identities that the chart holds.
pub open spec fn distinct_items(chart: Seq<EdgeModel>) -> nat {
    first_finds(chart).len()
}

impl Item {
    /// The rule exists, the dot lies within its right side, and the span is in order.
    pub open spec fn fits(self, g: GrammarModel) -> bool {
        &&& 0 <= self.rule < g.rules.len()
        &&& 0 <= self.dot <= g.rules[self.rule].rhs.len()
        &&& 0 <= self.start <= self.end
    }

    /// The dot stands before a symbol.
    pub open spec fn is_open(self, g: GrammarModel) -> bool {
        &&& 0 <= self.rule < g.rules.len()
        &&& 0 <= self.dot < g.rules[self.rule].rhs.len()
    }

    /// The dot stands at the end of the right side.
    pub open spec fn is_complete(self, g: GrammarModel) -> bool {
        &&& 0 <= self.rule < g.rules.len()
        &&& self.dot == g.rules[self.rule].rhs.len()
    }

    /// The symbol behind the dot of an open item.
    pub open spec fn next(self, g: GrammarModel) -> Sym {
        g.rules[self.rule].rhs[self.dot]
    }

    /// The left side of the item's rule.
    pub open spec fn head(self, g: GrammarModel) -> Sym {
        g.rules[self.rule].lhs
    }
}

/// The item the chart starts from: the starting rule, nothing matched, at position 0.
pub open spec fn seed_item(start_rule: int) -> Item {
    Item { rule: start_rule, dot: 0, start: 0, end: 0 }
}

/// The item that accepts an input of the given length: the starting rule, all of it
/// matched, over the whole input.
pub open spec fn accepting_item(g: GrammarModel, start_rule: int, input_len: int) -> Item {
    Item { rule: start_rule, dot: g.rules[start_rule].rhs.len() as int, start: 0, end: input_len }
}

/// Prediction applies: the dot of `b` stands before a non-terminal that is not
/// privileged, and rule `r` has that non-terminal on its left side.
pub open spec fn predicts(g: GrammarModel, privileged: Set<Sym>, b: Item, r: int) -> bool {
    &&& b.is_open(g)
    &&& b.next(g) is NonTerminal
    &&& !privileged.contains(b.next(g))
    &&& 0 <= r < g.rules.len()
    &&& g.rules[r].lhs == b.next(g)
}

/// What prediction adds: rule `r`, nothing matched, at the right end of `b`.
pub open spec fn predicted(b: Item, r: int) -> Item {
    Item { rule: r, dot: 0, start: b.end, end: b.end }
}

/// Realization applies: the dot of `b` stands before a privileged symbol, and rule `r`
/// derives exactly the next token from that symbol.
pub open spec fn realizes(
    g: GrammarModel,
    privileged: Set<Sym>,
    input: Seq<Sym>,
    b: Item,
    r: int,
) -> bool {
    &&& b.is_open(g)
    &&& 0 <= b.end < input.len()
    &&& privileged.contains(b.next(g))
    &&& 0 <= r < g.rules.len()
    &&& g.rules[r] == GrammarModel::unary(b.next(g), input[b.end])
}

/// What realization adds: rule `r`, completed, over the one token at the right end of `b`.
pub open spec fn realized(b: Item, r: int) -> Item {
    Item { rule: r, dot: 1, start: b.end, end: b.end + 1 }
}

/// Shifting applies: the symbol behind the dot of `b` is the next token.
pub open spec fn shifts(g: GrammarModel, input: Seq<Sym>, b: Item) -> bool {
    &&& b.is_open(g)
    &&& 0 <= b.end < input.len()
    &&& b.next(g) == input[b.end]
}

/// What shifting adds: `b` with the dot and the right end moved on by one.
pub open spec fn shifted(b: Item) -> Item {
    Item { rule: b.rule, dot: b.dot + 1, start: b.start, end: b.end + 1 }
}

/// Completion applies: `a` is complete, starts where `b` ends, and its left side is the
/// symbol behind the dot of `b`.
pub open spec fn completes(g: GrammarModel, b: Item, a: Item) -> bool {
    &&& b.is_open(g)
    &&& a.is_complete(g)
    &&& b.next(g) == a.head(g)
    &&& b.end == a.start
}

/// What completion adds: `b` with the dot moved on by one, reaching to the end of `a`.
pub open spec fn completed(b: Item, a: Item) -> Item {
    Item { rule: b.rule, dot: b.dot + 1, start: b.start, end: a.end }
}

/// The chart holds an edge with this identity.
pub open spec fn has_item(chart: Seq<EdgeModel>, it: Item) -> bool {
    exists|k: int| 0 <= k < chart.len() && (#[trigger] chart[k]).item == it
}

/// Edge `k` was predicted from an edge before position `limit`.
pub open spec fn predicted_below(
    g: GrammarModel,
    privileged: Set<Sym>,
    chart: Seq<EdgeModel>,
    k: int,
    limit: int,
) -> bool {
    exists|b: int, r: int|
        {
            &&& 0 <= b < limit
            &&& #[trigger] predicts(g, privileged, chart[b].item, r)
            &&& chart[k].item == predicted(chart[b].item, r)
            &&& chart[k].history.len() == 0
        }
}

/// Edge `k` was realized from an edge before position `limit`.
pub open spec fn realized_below(
    g: GrammarModel,
    privileged: Set<Sym>,
    input: Seq<Sym>,
    chart: Seq<EdgeModel>,
    k: int,
    limit: int,
) -> bool {
    exists|b: int, r: int|
        {
            &&& 0 <= b < limit
            &&& #[trigger] realizes(g, privileged, input, chart[b].item, r)
            &&& chart[k].item == realized(chart[b].item, r)
            &&& chart[k].history.len() == 0
        }
}

/// Edge `k` was shifted from an edge before position `limit`.
pub open spec fn shifted_below(
    g: GrammarModel,
    input: Seq<Sym>,
    chart: Seq<EdgeModel>,
    k: int,
    limit: int,
) -> bool {
    exists|b: int|
        {
            &&& 0 <= b < limit
            &&& shifts(g, input, (#[trigger] chart[b]).item)
            &&& chart[k].item == shifted(chart[b].item)
            &&& chart[k].history.len() == 0
        }
}

/// Edge `k` was scanned, one way or the other, from an edge before position `limit`.
pub open spec fn scanned_below(
    g: GrammarModel,
    privileged: Set<Sym>,
    input: Seq<Sym>,
    chart: Seq<EdgeModel>,
    k: int,
    limit: int,
) -> bool {
    realized_below(g, privileged, input, chart, k, limit) || shifted_below(
        g,
        input,
        chart,
        k,
        limit,
    )
}

/// The history is `parent` with position `a` added at the end.
pub open spec fn history_extends(history: Seq<usize>, parent: Seq<usize>, a: int) -> bool {
    &&& history.len() == parent.len() + 1
    &&& history.drop_last() == parent
    &&& history.last() == a
}

/// Edge `k` was completed from two edges before position `limit`; its history is that of
/// the open edge with the position of the complete edge added at the end.
pub open spec fn completed_below(
    g: GrammarModel,
    chart: Seq<EdgeModel>,
    k: int,
    limit: int,
) -> bool {
    exists|b: int, a: int|
        {
            &&& 0 <= b < limit
            &&& 0 <= a < limit
            &&& #[trigger] completes(g, chart[b].item, chart[a].item)
            &&& chart[k].item == completed(chart[b].item, chart[a].item)
            &&& history_extends(chart[k].history, chart[b].history, a)
        }
}

/// Edge `k` follows from edges that stand before it, by one of the inference rules.
pub open spec fn inferred(
    g: GrammarModel,
    privileged: Set<Sym>,
    input: Seq<Sym>,
    chart: Seq<EdgeModel>,
    k: int,
) -> bool {
    ||| predicted_below(g, privileged, chart, k, k)
    ||| scanned_below(g, privileged, input, chart, k, k)
    ||| completed_below(g, chart, k, k)
}

/// Every edge from position `from` on follows from edges that stand before it.
pub open spec fn inferred_from(
    g: GrammarModel,
    privileged: Set<Sym>,
    input: Seq<Sym>,
    chart: Seq<EdgeModel>,
    from: int,
) -> bool {
    forall|k: int| from <= k < chart.len() ==> #[trigger] inferred(g, privileged, input, chart, k)
}

/// `after` holds whatever prediction gives from the edges of `before`.
pub open spec fn predict_covers(
    g: GrammarModel,
    privileged: Set<Sym>,
    before: Seq<EdgeModel>,
    after: Seq<EdgeModel>,
) -> bool {
    forall|b: int, r: int|
        0 <= b < before.len() && #[trigger] predicts(g, privileged, before[b].item, r)
            ==> has_item(after, predicted(before[b].item, r))
}

/// `after` holds whatever scanning gives from the edges of `before`.
pub open spec fn scan_covers(
    g: GrammarModel,
    privileged: Set<Sym>,
    input: Seq<Sym>,
    before: Seq<EdgeModel>,
    after: Seq<EdgeModel>,
) -> bool {
    &&& forall|b: int, r: int|
        0 <= b < before.len() && #[trigger] realizes(g, privileged, input, before[b].item, r)
            ==> has_item(after, realized(before[b].item, r))
    &&& forall|b: int|
        0 <= b < before.len() && shifts(g, input, (#[trigger] before[b]).item) ==> has_item(
            after,
            shifted(before[b].item),
        )
}

/// `after` holds whatever completion gives from pairs of edges of `before`.
pub open spec fn complete_covers(
    g: GrammarModel,
    before: Seq<EdgeModel>,
    after: Seq<EdgeModel>,
) -> bool {
    forall|b: int, a: int|
        0 <= b < before.len() && 0 <= a < before.len() && #[trigger] completes(
            g,
            before[b].item,
            before[a].item,
        ) ==> has_item(after, completed(before[b].item, before[a].item))
}

/// No inference rule gives anything that the chart does not hold.
pub open spec fn saturated(
    g: GrammarModel,
    privileged: Set<Sym>,
    input: Seq<Sym>,
    chart: Seq<EdgeModel>,
) -> bool {
    &&& predict_covers(g, privileged, chart, chart)
    &&& scan_covers(g, privileged, input, chart, chart)
    &&& complete_covers(g, chart, chart)
}

/// What holds of every chart: it starts with the seed; every edge fits the grammar and
/// keeps in its history only positions before its own; and but for the seed, no edge
/// with the dot at the start has a privileged left side.
pub open spec fn chart_ok(
    g: GrammarModel,
    privileged: Set<Sym>,
    start_rule: int,
    chart: Seq<EdgeModel>,
) -> bool {
    &&& chart.len() >= 1
    &&& chart[0].item == seed_item(start_rule)
    &&& chart[0].history.len() == 0
    &&& forall|k: int| 0 <= k < chart.len() ==> (#[trigger] chart[k]).item.fits(g)
    &&& forall|k: int, m: int|
        0 <= k < chart.len() && 0 <= m < chart[k].history.len() ==> (#[trigger] chart[k].history[m])
            < k
    &&& forall|k: int|
        1 <= k < chart.len() && (#[trigger] chart[k]).item.dot == 0 ==> !privileged.contains(
            chart[k].item.head(g),
        )
}

/// Every edge ends at or before `limit`.
pub open spec fn ends_within(chart: Seq<EdgeModel>, limit: int) -> bool {
    forall|k: int| 0 <= k < chart.len() ==> (#[trigger] chart[k]).item.end <= limit
}

/// The largest right end of a span in the chart.
pub open spec fn span_limit(chart: Seq<EdgeModel>) -> int
    decreases chart.len(),
{
    if chart.len() == 0 {
        0
    } else if chart.last().item.end > span_limit(chart.drop_last()) {
        chart.last().item.end
    } else {
        span_limit(chart.drop_last())
    }
}

/// The length of the longest right side.
pub open spec fn max_rhs_len(g: GrammarModel) -> int
    decreases g.rules.len(),
{
    if g.rules.len() == 0 {
        0
    } else {
        let rest = max_rhs_len(GrammarModel { rules: g.rules.drop_last(), ..g });
        if g.rules.last().rhs.len() > rest {
            g.rules.last().rhs.len() as int
        } else {
            rest
        }
    }
}

/// The number of items that fit the grammar and end at or before `limit`.
pub open spec fn item_bound(g: GrammarModel, limit: int) -> int {
    g.rules.len() * (max_rhs_len(g) + 1) * (limit + 1) * (limit + 1)
}

/// No span in the chart ends beyond the chart's span limit.
pub proof fn lemma_span_limit(chart: Seq<EdgeModel>)
    ensures
        span_limit(chart) >= 0,
        ends_within(chart, span_limit(chart)),
    decreases chart.len(),
{
    if chart.len() > 0 {
        lemma_span_limit(chart.drop_last());
        assert forall|k: int| 0 <= k < chart.len() implies (#[trigger] chart[k]).item.end
            <= span_limit(chart) by {
            if k < chart.len() - 1 {
                assert(chart.drop_last()[k] == chart[k]);
            }
        }
    }
}

/// No right side is longer than the longest.
pub proof fn lemma_max_rhs_len(g: GrammarModel, r: int)
    requires
        0 <= r < g.rules.len(),
    ensures
        g.rules[r].rhs.len() <= max_rhs_len(g),
    decreases g.rules.len(),
{
    let rest = GrammarModel { rules: g.rules.drop_last(), ..g };
    if r < g.rules.len() - 1 {
        lemma_max_rhs_len(rest, r);
        assert(rest.rules[r] == g.rules[r]);
    }
}

/// One number for each item with `dot < dots` and `start, end < ends`.
spec fn code(it: Item, dots: int, ends: int) -> int {
    ((it.rule * dots + it.dot) * ends + it.start) * ends + it.end
}

proof fn lemma_code_injective(x: Item, y: Item, dots: int, ends: int)
    requires
        0 <= x.dot < dots,
        0 <= y.dot < dots,
        0 <= x.start < ends,
        0 <= y.start < ends,
        0 <= x.end < ends,
        0 <= y.end < ends,
        code(x, dots, ends) == code(y, dots, ends),
    ensures
        x == y,
{
    let x2 = (x.rule * dots + x.dot) * ends + x.start;
    let y2 = (y.rule * dots + y.dot) * ends + y.start;
    lemma_fundamental_div_mod_converse(code(x, dots, ends), ends, x2, x.end);
    lemma_fundamental_div_mod_converse(code(x, dots, ends), ends, y2, y.end);
    let x1 = x.rule * dots + x.dot;
    let y1 = y.rule * dots + y.dot;
    lemma_fundamental_div_mod_converse(x2, ends, x1, x.start);
    lemma_fundamental_div_mod_converse(x2, ends, y1, y.start);
    lemma_fundamental_div_mod_converse(x1, dots, x.rule, x.dot);
    lemma_fundamental_div_mod_converse(x1, dots, y.rule, y.dot);
}

proof fn lemma_code_bound(x: Item, rules: int, dots: int, ends: int)
    requires
        0 <= x.rule < rules,
        0 <= x.dot < dots,
        0 <= x.start < ends,
        0 <= x.end < ends,
    ensures
        0 <= code(x, dots, ends) < rules * dots * ends * ends,
{
    let x1 = x.rule * dots + x.dot;
    assert(0 <= x1 <= rules * dots - 1) by (nonlinear_arith)
        requires
            x1 == x.rule * dots + x.dot,
            0 <= x.rule <= rules - 1,
            0 <= x.dot <= dots - 1,
    ;
    let x2 = x1 * ends + x.start;
    assert(0 <= x2 <= rules * dots * ends - 1) by (nonlinear_arith)
        requires
            x2 == x1 * ends + x.start,
            0 <= x1 <= rules * dots - 1,
            0 <= x.start <= ends - 1,
    ;
    assert(0 <= x2 * ends + x.end <= rules * dots * ends * ends - 1) by (nonlinear_arith)
        requires
            0 <= x2 <= rules * dots * ends - 1,
            0 <= x.end <= ends - 1,
    ;
}

/// The first finds hold the identities that the chart holds, each once.
pub proof fn lemma_first_finds(chart: Seq<EdgeModel>)
    ensures
        forall|it: Item|
            #![trigger has_item(first_finds(chart), it)]
            #![trigger has_item(chart, it)]
            has_item(first_finds(chart), it) <==> has_item(chart, it),
        forall|i: int, j: int|
            0 <= i < j < first_finds(chart).len() ==> (#[trigger] first_finds(chart)[i]).item != (
            #[trigger] first_finds(chart)[j]).item,
    decreases chart.len(),
{
    if chart.len() > 0 {
        let rest = chart.drop_last();
        let x = chart.last();
        let found = first_finds(chart);
        lemma_first_finds(rest);
        assert forall|it: Item|
            #![trigger has_item(found, it)]
            #![trigger has_item(chart, it)]
            has_item(found, it) <==> has_item(chart, it) by {
            if has_item(chart, it) {
                let k = choose|k: int| 0 <= k < chart.len() && (#[trigger] chart[k]).item == it;
                if k < rest.len() {
                    assert(rest[k].item == it);
                    assert(has_item(rest, it));
                    assert(has_item(first_finds(rest), it));
                    lemma_has_item_grows(first_finds(rest), found, it);
                } else if has_item(rest, x.item) {
                    assert(has_item(first_finds(rest), it));
                } else {
                    assert(found[found.len() - 1].item == it);
                }
            }
            if has_item(found, it) {
                let k = choose|k: int| 0 <= k < found.len() && (#[trigger] found[k]).item == it;
                if k < first_finds(rest).len() {
                    assert(first_finds(rest)[k].item == it);
                    assert(has_item(rest, it));
                    lemma_has_item_grows(rest, chart, it);
                } else {
                    assert(chart[chart.len() - 1].item == it);
                }
            }
        }
        assert forall|i: int, j: int| 0 <= i < j < found.len() implies (#[trigger] found[i]).item
            != (#[trigger] found[j]).item by {
            if j == first_finds(rest).len() {
                assert(first_finds(rest)[i].item == found[i].item);
                assert(has_item(first_finds(rest), found[i].item));
            }
        }
    }
}

/// A chart holds no more identities than there are items.
pub proof fn lemma_distinct_bounded(
    g: GrammarModel,
    privileged: Set<Sym>,
    start_rule: int,
    chart: Seq<EdgeModel>,
    limit: int,
)
    requires
        chart_ok(g, privileged, start_rule, chart),
        ends_within(chart, limit),
    ensures
        1 <= distinct_items(chart) <= item_bound(g, limit),
{
    let dots = max_rhs_len(g) + 1;
    let ends = limit + 1;
    let bound = item_bound(g, limit);
    let found = first_finds(chart);
    lemma_first_finds(chart);
    assert(has_item(chart, chart[0].item));
    assert(has_item(found, chart[0].item));
    let codes = Seq::new(found.len(), |k: int| code(found[k].item, dots, ends));
    assert forall|k: int| 0 <= k < found.len() implies (#[trigger] found[k]).item.fits(g)
        && found[k].item.end <= limit by {
        assert(has_item(found, found[k].item));
        let c = choose|c: int| 0 <= c < chart.len() && (#[trigger] chart[c]).item == found[k].item;
        assert(chart[c].item.fits(g));
    }
    assert forall|k: int| 0 <= k < found.len() implies 0 <= #[trigger] codes[k] < bound by {
        let it = found[k].item;
        assert(it.fits(g));
        lemma_max_rhs_len(g, it.rule);
        lemma_code_bound(it, g.rules.len() as int, dots, ends);
    }
    assert forall|k: int, l: int| 0 <= k < l < codes.len() implies codes[k] != codes[l] by {
        let x = found[k].item;
        let y = found[l].item;
        assert(x.fits(g) && y.fits(g));
        lemma_max_rhs_len(g, x.rule);
        lemma_max_rhs_len(g, y.rule);
        if codes[k] == codes[l] {
            lemma_code_injective(x, y, dots, ends);
        }
    }
    assert(codes.no_duplicates());
    codes.unique_seq_to_set();
    assert(bound >= 0) by {
        assert(codes[0] < bound);
    }
    lemma_int_range(0, bound);
    assert(codes.to_set().subset_of(set_int_range(0, bound))) by {
        assert forall|c: int| codes.to_set().contains(c) implies set_int_range(0, bound).contains(
            c,
        ) by {
            let k = choose|k: int| 0 <= k < codes.len() && codes[k] == c;
            assert(0 <= codes[k] < bound);
        }
    }
    lemma_len_subset(codes.to_set(), set_int_range(0, bound));
}

/// A later chart holds no fewer identities than an earlier one, and more if the first
/// edge that it adds has an identity that the earlier one does not hold.
pub proof fn lemma_distinct_grows(before: Seq<EdgeModel>, after: Seq<EdgeModel>)
    requires
        before.is_prefix_of(after),
    ensures
        distinct_items(before) <= distinct_items(after),
        after.len() > before.len() && !has_item(before, after[before.len() as int].item)
            ==> distinct_items(before) < distinct_items(after),
    decreases after.len() - before.len(),
{
    if after.len() == before.len() {
        assert(after =~= before);
    } else {
        let mid = after.drop_last();
        assert(before.is_prefix_of(mid));
        lemma_distinct_grows(before, mid);
        if mid.len() == before.len() {
            assert(mid =~= before);
        } else {
            assert(mid[before.len() as int] == after[before.len() as int]);
        }
    }
}

/// A chart that grew holds more identities than before if the first edge that was
/// added has an identity that no edge before it has.
pub proof fn lemma_new_edge_counts(before: Seq<EdgeModel>, after: Seq<EdgeModel>)
    requires
        before.is_prefix_of(after),
        after.len() > before.len(),
        new_at(after, before.len() as int, before.len() as int),
    ensures
        distinct_items(before) < distinct_items(after),
{
    let it = after[before.len() as int].item;
    if has_item(before, it) {
        let j = choose|j: int| 0 <= j < before.len() && (#[trigger] before[j]).item == it;
        assert(after[j] == before[j]);
    }
    lemma_distinct_grows(before, after);
}

/// Edges that no earlier edge repeats stay so when an edge is added whose identity the
/// chart does not hold.
pub proof fn lemma_new_at_push(before: Seq<EdgeModel>, after: Seq<EdgeModel>, from: int)
    requires
        before.is_prefix_of(after),
        after.len() <= before.len() + 1,
        after.len() == before.len() + 1 ==> !has_item(before, after.last().item),
        forall|k: int| from <= k < before.len() ==> new_at(before, k, k),
    ensures
        forall|k: int| from <= k < after.len() ==> new_at(after, k, k),
{
    assert forall|k: int| from <= k < after.len() implies new_at(after, k, k) by {
        assert forall|j: int| 0 <= j < k implies (#[trigger] after[j]).item != after[k].item by {
            assert(after[j] == before[j]);
            if k < before.len() {
                assert(new_at(before, k, k));
                assert(after[k] == before[k]);
            }
        }
    }
}

/// An item that an earlier chart holds, a later one holds too.
pub proof fn lemma_has_item_grows(before: Seq<EdgeModel>, after: Seq<EdgeModel>, it: Item)
    requires
        before.is_prefix_of(after),
        has_item(before, it),
    ensures
        has_item(after, it),
{
    let k = choose|k: int| 0 <= k < before.len() && (#[trigger] before[k]).item == it;
    assert(after[k] == before[k]);
}

/// A chart stays in order when an edge is added that fits the grammar, keeps only
/// positions of the chart in its history, and has the dot at the start only with a
/// left side that is not privileged.
pub proof fn lemma_chart_ok_push(
    g: GrammarModel,
    privileged: Set<Sym>,
    start_rule: int,
    chart: Seq<EdgeModel>,
    e: EdgeModel,
)
    requires
        chart_ok(g, privileged, start_rule, chart),
        e.item.fits(g),
        forall|m: int| 0 <= m < e.history.len() ==> (#[trigger] e.history[m]) < chart.len(),
        e.item.dot == 0 ==> !privileged.contains(e.item.head(g)),
    ensures
        chart_ok(g, privileged, start_rule, chart.push(e)),
{
}

/// An edge that was predicted in an earlier chart was predicted in a later one too.
pub proof fn lemma_predicted_grows(
    g: GrammarModel,
    privileged: Set<Sym>,
    before: Seq<EdgeModel>,
    after: Seq<EdgeModel>,
    k: int,
    limit: int,
)
    requires
        before.is_prefix_of(after),
        0 <= k < before.len(),
        limit <= before.len(),
        predicted_below(g, privileged, before, k, limit),
    ensures
        predicted_below(g, privileged, after, k, limit),
{
    let (b, r) = choose|b: int, r: int|
        {
            &&& 0 <= b < limit
            &&& #[trigger] predicts(g, privileged, before[b].item, r)
            &&& before[k].item == predicted(before[b].item, r)
            &&& before[k].history.len() == 0
        };
    assert(after[b] == before[b]);
    assert(after[k] == before[k]);
    assert(predicts(g, privileged, after[b].item, r));
}

/// An edge that was scanned in an earlier chart was scanned in a later one too.
pub proof fn lemma_scanned_grows(
    g: GrammarModel,
    privileged: Set<Sym>,
    input: Seq<Sym>,
    before: Seq<EdgeModel>,
    after: Seq<EdgeModel>,
    k: int,
    limit: int,
)
    requires
        before.is_prefix_of(after),
        0 <= k < before.len(),
        limit <= before.len(),
        scanned_below(g, privileged, input, before, k, limit),
    ensures
        scanned_below(g, privileged, input, after, k, limit),
{
    assert(after[k] == before[k]);
    if realized_below(g, privileged, input, before, k, limit) {
        let (b, r) = choose|b: int, r: int|
            {
                &&& 0 <= b < limit
                &&& #[trigger] realizes(g, privileged, input, before[b].item, r)
                &&& before[k].item == realized(before[b].item, r)
                &&& before[k].history.len() == 0
            };
        assert(after[b] == before[b]);
        assert(realizes(g, privileged, input, after[b].item, r));
    } else {
        let b = choose|b: int|
            {
                &&& 0 <= b < limit
                &&& shifts(g, input, (#[trigger] before[b]).item)
                &&& before[k].item == shifted(before[b].item)
                &&& before[k].history.len() == 0
            };
        assert(after[b] == before[b]);
        assert(shifts(g, input, after[b].item));
    }
}

/// An edge that was completed in an earlier chart was completed in a later one too.
pub proof fn lemma_completed_grows(
    g: GrammarModel,
    before: Seq<EdgeModel>,
    after: Seq<EdgeModel>,
    k: int,
    limit: int,
)
    requires
        before.is_prefix_of(after),
        0 <= k < before.len(),
        limit <= before.len(),
        completed_below(g, before, k, limit),
    ensures
        completed_below(g, after, k, limit),
{
    let (b, a) = choose|b: int, a: int|
        {
            &&& 0 <= b < limit
            &&& 0 <= a < limit
            &&& #[trigger] completes(g, before[b].item, before[a].item)
            &&& before[k].item == completed(before[b].item, before[a].item)
            &&& history_extends(before[k].history, before[b].history, a)
        };
    assert(after[b] == before[b]);
    assert(after[a] == before[a]);
    assert(after[k] == before[k]);
    assert(completes(g, after[b].item, after[a].item));
}

/// Where every edge from `from` on follows from edges before it, no span ends beyond
/// the end of the input and the ends of the spans before `from`.
pub proof fn lemma_inferred_ends(
    g: GrammarModel,
    privileged: Set<Sym>,
    input: Seq<Sym>,
    chart: Seq<EdgeModel>,
    from: int,
    upto: int,
    limit: int,
)
    requires
        0 <= from <= upto <= chart.len(),
        input.len() <= limit,
        forall|k: int| 0 <= k < from ==> (#[trigger] chart[k]).item.end <= limit,
        inferred_from(g, privileged, input, chart, from),
    ensures
        forall|k: int| 0 <= k < upto ==> (#[trigger] chart[k]).item.end <= limit,
    decreases upto - from,
{
    if upto > from {
        lemma_inferred_ends(g, privileged, input, chart, from, upto - 1, limit);
        let k = upto - 1;
        assert(inferred(g, privileged, input, chart, k));
        if predicted_below(g, privileged, chart, k, k) {
            let (b, r) = choose|b: int, r: int|
                {
                    &&& 0 <= b < k
                    &&& #[trigger] predicts(g, privileged, chart[b].item, r)
                    &&& chart[k].item == predicted(chart[b].item, r)
                    &&& chart[k].history.len() == 0
                };
            assert(chart[b].item.end <= limit);
        } else if realized_below(g, privileged, input, chart, k, k) {
            let (b, r) = choose|b: int, r: int|
                {
                    &&& 0 <= b < k
                    &&& #[trigger] realizes(g, privileged, input, chart[b].item, r)
                    &&& chart[k].item == realized(chart[b].item, r)
                    &&& chart[k].history.len() == 0
                };
        } else if shifted_below(g, input, chart, k, k) {
            let b = choose|b: int|
                {
                    &&& 0 <= b < k
                    &&& shifts(g, input, (#[trigger] chart[b]).item)
                    &&& chart[k].item == shifted(chart[b].item)
                    &&& chart[k].history.len() == 0
                };
        } else {
            let (b, a) = choose|b: int, a: int|
                {
                    &&& 0 <= b < k
                    &&& 0 <= a < k
                    &&& #[trigger] completes(g, chart[b].item, chart[a].item)
                    &&& chart[k].item == completed(chart[b].item, chart[a].item)
                    &&& history_extends(chart[k].history, chart[b].history, a)
                };
            assert(chart[a].item.end <= limit);
        }
    }
}

/// An edge that follows from earlier edges in a chart does so in a later chart too.
pub proof fn lemma_inferred_grows(
    g: GrammarModel,
    privileged: Set<Sym>,
    input: Seq<Sym>,
    before: Seq<EdgeModel>,
    after: Seq<EdgeModel>,
    k: int,
)
    requires
        before.is_prefix_of(after),
        0 <= k < before.len(),
        inferred(g, privileged, input, before, k),
    ensures
        inferred(g, privileged, input, after, k),
{
    if predicted_below(g, privileged, before, k, k) {
        lemma_predicted_grows(g, privileged, before, after, k, k);
    } else if scanned_below(g, privileged, input, before, k, k) {
        lemma_scanned_grows(g, privileged, input, before, after, k, k);
    } else {
        lemma_completed_grows(g, before, after, k, k);
    }
}

/// Edge `k` follows from edges before it if it was predicted from edges before an
/// earlier position.
pub proof fn lemma_predicted_inferred(
    g: GrammarModel,
    privileged: Set<Sym>,
    input: Seq<Sym>,
    chart: Seq<EdgeModel>,
    k: int,
    limit: int,
)
    requires
        limit <= k,
        predicted_below(g, privileged, chart, k, limit),
    ensures
        inferred(g, privileged, input, chart, k),
{
    let (b, r) = choose|b: int, r: int|
        {
            &&& 0 <= b < limit
            &&& #[trigger] predicts(g, privileged, chart[b].item, r)
            &&& chart[k].item == predicted(chart[b].item, r)
            &&& chart[k].history.len() == 0
        };
    assert(predicted_below(g, privileged, chart, k, k));
}

/// Edge `k` follows from edges before it if it was scanned from edges before an
/// earlier position.
pub proof fn lemma_scanned_inferred(
    g: GrammarModel,
    privileged: Set<Sym>,
    input: Seq<Sym>,
    chart: Seq<EdgeModel>,
    k: int,
    limit: int,
)
    requires
        limit <= k,
        scanned_below(g, privileged, input, chart, k, limit),
    ensures
        inferred(g, privileged, input, chart, k),
{
    if realized_below(g, privileged, input, chart, k, limit) {
        let (b, r) = choose|b: int, r: int|
            {
                &&& 0 <= b < limit
                &&& #[trigger] realizes(g, privileged, input, chart[b].item, r)
                &&& chart[k].item == realized(chart[b].item, r)
                &&& chart[k].history.len() == 0
            };
        assert(realized_below(g, privileged, input, chart, k, k));
    } else {
        let b = choose|b: int|
            {
                &&& 0 <= b < limit
                &&& shifts(g, input, (#[trigger] chart[b]).item)
                &&& chart[k].item == shifted(chart[b].item)
                &&& chart[k].history.len() == 0
            };
        assert(shifted_below(g, input, chart, k, k));
    }
}

/// Privileged symbols are never predicted: an edge other than the seed whose rule has
/// a privileged left side has the dot behind the start, and was not predicted.
pub proof fn lemma_privileged_not_predicted(
    g: GrammarModel,
    privileged: Set<Sym>,
    start_rule: int,
    chart: Seq<EdgeModel>,
    k: int,
    limit: int,
)
    requires
        chart_ok(g, privileged, start_rule, chart),
        1 <= k < chart.len(),
        privileged.contains(chart[k].item.head(g)),
    ensures
        chart[k].item.dot >= 1,
        !predicted_below(g, privileged, chart, k, limit),
{
    assert(chart[k].item.fits(g));
}

/// The rounds are bounded: a chart whose spans end within `limit`, and which has come
/// to hold a new identity in each of a number of rounds since it held the seed alone,
/// has not seen as many rounds as there are items.
pub proof fn lemma_rounds_bounded(
    g: GrammarModel,
    privileged: Set<Sym>,
    start_rule: int,
    chart: Seq<EdgeModel>,
    limit: int,
    rounds: int,
)
    requires
        chart_ok(g, privileged, start_rule, chart),
        ends_within(chart, limit),
        distinct_items(chart) >= 1 + rounds,
    ensures
        rounds < item_bound(g, limit),
{
    lemma_distinct_bounded(g, privileged, start_rule, chart, limit);
}

} // verus!
