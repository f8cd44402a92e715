//! The chart parser: the three phases that grow the chart, the search for accepting
//! edges, and the reconstruction of a derivation from an edge's history.

use crate::chart::{
    accepting_item, chart_ok, complete_covers, completed, completed_below, completes,
    distinct_items, edge_models, edges_with, ends_within, has_edge, has_item,
    history_extends, inferred, inferred_from, item_bound, lemma_chart_ok_push,
    lemma_completed_grows, lemma_distinct_bounded, lemma_has_item_grows,
    lemma_inferred_ends, lemma_inferred_grows, lemma_new_at_push, lemma_new_edge_counts,
    lemma_predicted_grows, lemma_predicted_inferred, lemma_scanned_grows,
    lemma_scanned_inferred, lemma_span_limit, new_at, predict_covers, predicted,
    predicted_below, predicts, realized, realized_below, realizes, saturated, scan_covers,
    scanned_below, shifted, shifted_below, shifts, span_limit, with_edge, Edge, EdgeModel,
    Item,
};
use crate::deduction::{
    derives, lemma_chart_deducible, lemma_recognition_sound, lemma_saturated_exact,
    recognizes,
};
use crate::derivation::{
    edge_trace, heads_tagged, history_below, history_trace, lemma_derivation_sound,
    lemma_history_trace_concat, lemma_history_trace_limit, rewrite, rules_at, trace_from,
    traceable,
};
use crate::grammar::{
    clone_rule, msg_no_start_rule, production, productions, symbols_view, Grammar,
    GrammarModel, Rule, Sym, Symbol, SymbolSet,
};
use crate::passes::{
    after_complete, after_complete_pass, after_complete_passes, after_predict, after_round,
    after_rounds, after_scan, complete_edges, complete_pairs, lemma_after_complete,
    lemma_complete_pairs_idle, lemma_predict_rules_idle, predict_edges, predict_rules,
    round_limit, rounds_end_at, scan_edges,
};
use vstd::prelude::*;

verus! {

/// The message for a privileged symbol that is no declared non-terminal.
pub open spec fn msg_privileged_undeclared() -> Seq<char> {
    "Privileged non-terminal, not in the set of non-terminals"@
}

/// The message for an input token that is no declared terminal.
pub open spec fn msg_token_undeclared() -> Seq<char> {
    "Input symbol not in grammar's terminals"@
}

/// A chart parser for one grammar. It owns the chart; the grammar is borrowed.
pub struct Parser<'g> {
    chart: Vec<Edge>,
    grammar: &'g Grammar,
    privileged: SymbolSet,
    starting_rule: usize,
}

impl<'g> Parser<'g> {
    /// The edges found so far, in the order in which they were found.
    pub closed spec fn chart(&self) -> Seq<EdgeModel> {
        Seq::new(self.chart@.len(), |k: int| self.chart@[k]@)
    }

    /// The grammar.
    pub closed spec fn grammar(&self) -> GrammarModel {
        self.grammar@
    }

    /// The non-terminals that prediction leaves alone.
    pub closed spec fn privileged(&self) -> Set<Sym> {
        self.privileged@
    }

    /// The position in the grammar of the rule that the chart starts from.
    pub closed spec fn start_rule(&self) -> int {
        self.starting_rule as int
    }

    /// The parser is in order: the grammar is valid, the privileged symbols are declared
    /// non-terminals, the starting rule is the first rule for the start symbol, and the
    /// chart is in order.
    pub open spec fn wf(&self) -> bool {
        &&& self.grammar().valid()
        &&& self.privileged().subset_of(self.grammar().non_terminals)
        &&& 0 <= self.start_rule() < self.grammar().rules.len()
        &&& self.grammar().rules[self.start_rule()].lhs == self.grammar().start
        &&& forall|j: int|
            0 <= j < self.start_rule() ==> (#[trigger] self.grammar().rules[j]).lhs
                != self.grammar().start
        &&& chart_ok(self.grammar(), self.privileged(), self.start_rule(), self.chart())
    }

    /// Grammar, privileged set and starting rule are those of `old`, and the chart
    /// starts with the chart of `old`.
    pub open spec fn extends(&self, old: &Parser) -> bool {
        &&& self.grammar() == old.grammar()
        &&& self.privileged() == old.privileged()
        &&& self.start_rule() == old.start_rule()
        &&& old.chart().is_prefix_of(self.chart())
    }

    /// Makes a parser whose chart holds the seed edge alone.
    pub fn new(grammar: &'g Grammar, privileged: SymbolSet) -> (r: Result<Parser<'g>, String>)
        ensures
            match r {
                Ok(p) => {
                    &&& p.wf()
                    &&& p.grammar() == grammar@
                    &&& p.privileged() == privileged@
                    &&& p.chart().len() == 1
                },
                Err(e) => if !privileged@.subset_of(grammar@.non_terminals) {
                    e@ == msg_privileged_undeclared()
                } else {
                    &&& e@ == msg_no_start_rule()
                    &&& forall|j: int|
                        0 <= j < grammar@.rules.len() ==> (#[trigger] grammar@.rules[j]).lhs
                            != grammar@.start
                },
            },
    {
        if !grammar.contains_non_terminals(&privileged) {
            return Err("Privileged non-terminal, not in the set of non-terminals".to_string());
        }
        let starting_rule = match grammar.starting_rule_index() {
            Some(k) => k,
            None => {
                return Err("No rule reducing the starting symbol".to_string());
            },
        };
        let mut chart: Vec<Edge> = Vec::new();
        chart.push(Edge::new(starting_rule, 0, 0, 0, Vec::new()));
        proof {
            use_type_invariant(grammar);
        }
        Ok(Parser { chart, grammar, privileged, starting_rule })
    }

    /// The number of edges in the chart.
    pub fn chart_len(&self) -> (n: usize)
        ensures
            n == self.chart().len(),
    {
        self.chart.len()
    }

    /// The edge at a position of the chart.
    pub fn edge(&self, k: usize) -> (e: &Edge)
        requires
            k < self.chart().len(),
        ensures
            e@ == self.chart()[k as int],
    {
        &self.chart[k]
    }

    /// Whether one of the first `n` edges of the chart has this rule, dot and span.
    pub fn held_below(&self, n: usize, rule: usize, dot_pos: usize, start: usize, end: usize) -> (b:
        bool)
        requires
            n <= self.chart().len(),
        ensures
            b == has_item(
                self.chart().subrange(0, n as int),
                Item {
                    rule: rule as int,
                    dot: dot_pos as int,
                    start: start as int,
                    end: end as int,
                },
            ),
    {
        let ghost it = Item {
            rule: rule as int,
            dot: dot_pos as int,
            start: start as int,
            end: end as int,
        };
        let ghost first = self.chart().subrange(0, n as int);
        let mut k: usize = 0;
        while k < n
            invariant
                k <= n <= self.chart@.len(),
                it == (Item {
                    rule: rule as int,
                    dot: dot_pos as int,
                    start: start as int,
                    end: end as int,
                }),
                first == self.chart().subrange(0, n as int),
                forall|j: int| 0 <= j < k ==> (#[trigger] first[j]).item != it,
            decreases n - k,
        {
            let e = &self.chart[k];
            proof {
                assert(first[k as int] == self.chart@[k as int]@);
            }
            if e.d_rule.rule == rule && e.d_rule.dot_pos == dot_pos && e.span.0 == start
                && e.span.1 == end {
                return true;
            }
            k += 1;
        }
        false
    }

    /// Whether the chart holds an edge with this rule, dot and span.
    pub fn holds(&self, rule: usize, dot_pos: usize, start: usize, end: usize) -> (b: bool)
        ensures
            b == has_item(
                self.chart(),
                Item {
                    rule: rule as int,
                    dot: dot_pos as int,
                    start: start as int,
                    end: end as int,
                },
            ),
    {
        proof {
            assert(self.chart().subrange(0, self.chart().len() as int) =~= self.chart());
        }
        self.held_below(self.chart.len(), rule, dot_pos, start, end)
    }

    /// Adds an edge at the end of the chart.
    fn push_edge(
        &mut self,
        rule: usize,
        dot_pos: usize,
        start: usize,
        end: usize,
        history: Vec<usize>,
    )
        requires
            old(self).wf(),
            (Item {
                rule: rule as int,
                dot: dot_pos as int,
                start: start as int,
                end: end as int,
            }).fits(old(self).grammar()),
            history_below(history@, old(self).chart().len() as int),
            dot_pos == 0 ==> !old(self).privileged().contains(
                old(self).grammar().rules[rule as int].lhs,
            ),
        ensures
            final(self).wf(),
            final(self).extends(old(self)),
            final(self).chart() == old(self).chart().push(
                EdgeModel {
                    item: Item {
                        rule: rule as int,
                        dot: dot_pos as int,
                        start: start as int,
                        end: end as int,
                    },
                    history: history@,
                },
            ),
    {
        let e = Edge::new(rule, dot_pos, start, end, history);
        proof {
            lemma_chart_ok_push(
                self.grammar(),
                self.privileged(),
                self.start_rule(),
                self.chart(),
                e@,
            );
        }
        let ghost prev = self.chart();
        let ghost pushed = e@;
        self.chart.push(e);
        proof {
            assert(self.chart() =~= prev.push(pushed));
        }
    }

    /// Adds an edge at the end of the chart unless the chart holds its identity already.
    fn add(
        &mut self,
        rule: usize,
        dot_pos: usize,
        start: usize,
        end: usize,
        history: Vec<usize>,
    ) -> (added: bool)
        requires
            old(self).wf(),
            (Item {
                rule: rule as int,
                dot: dot_pos as int,
                start: start as int,
                end: end as int,
            }).fits(old(self).grammar()),
            history_below(history@, old(self).chart().len() as int),
            dot_pos == 0 ==> !old(self).privileged().contains(
                old(self).grammar().rules[rule as int].lhs,
            ),
        ensures
            final(self).wf(),
            final(self).extends(old(self)),
            added == !has_item(
                old(self).chart(),
                Item {
                    rule: rule as int,
                    dot: dot_pos as int,
                    start: start as int,
                    end: end as int,
                },
            ),
            final(self).chart() == with_edge(
                old(self).chart(),
                Item {
                    rule: rule as int,
                    dot: dot_pos as int,
                    start: start as int,
                    end: end as int,
                },
                history@,
            ),
            !added ==> final(self).chart() == old(self).chart(),
            added ==> {
                &&& final(self).chart().len() == old(self).chart().len() + 1
                &&& final(self).chart().last().item == (Item {
                    rule: rule as int,
                    dot: dot_pos as int,
                    start: start as int,
                    end: end as int,
                })
                &&& final(self).chart().last().history == history@
            },
    {
        if self.holds(rule, dot_pos, start, end) {
            return false;
        }
        self.push_edge(rule, dot_pos, start, end, history);
        true
    }

    /// The predict phase, once over the chart as it stands: for every edge whose dot
    /// stands before a non-terminal that is not privileged, every rule for that
    /// non-terminal is added at the edge's right end, nothing matched, unless the chart
    /// holds it already: no edge that is added has the identity of an edge before it.
    /// The edges that are added are not themselves predicted from in this run; where
    /// the chart holds all that prediction gives, nothing changes.
    pub fn predict(&mut self)
        requires
            old(self).wf(),
        ensures
            final(self).wf(),
            final(self).extends(old(self)),
            forall|k: int|
                old(self).chart().len() <= k < final(self).chart().len() ==> predicted_below(
                    final(self).grammar(),
                    final(self).privileged(),
                    final(self).chart(),
                    k,
                    old(self).chart().len() as int,
                ),
            predict_covers(
                final(self).grammar(),
                final(self).privileged(),
                old(self).chart(),
                final(self).chart(),
            ),
            predict_covers(
                old(self).grammar(),
                old(self).privileged(),
                old(self).chart(),
                old(self).chart(),
            ) ==> final(self).chart() == old(self).chart(),
            forall|k: int|
                old(self).chart().len() <= k < final(self).chart().len() ==> new_at(
                    final(self).chart(),
                    k,
                    k,
                ),
            final(self).chart() == after_predict(
                old(self).grammar(),
                old(self).privileged(),
                old(self).chart(),
            ),
    {
        let g: &Grammar = self.grammar;
        let ghost gm = self.grammar();
        let ghost pv = self.privileged();
        let ghost before = self.chart();
        let ghost old_self = *self;
        let n = self.chart.len();
        let count = g.rule_count();
        let mut b: usize = 0;
        while b < n
            invariant
                self.wf(),
                self.extends(&old_self),
                g@ == gm,
                gm == old_self.grammar(),
                pv == old_self.privileged(),
                before == old_self.chart(),
                n == before.len(),
                count == gm.rules.len(),
                b <= n,
                forall|k: int|
                    n <= k < self.chart().len() ==> predicted_below(
                        gm,
                        pv,
                        self.chart(),
                        k,
                        n as int,
                    ),
                forall|c: int, r: int|
                    0 <= c < b && #[trigger] predicts(gm, pv, before[c].item, r) ==> has_item(
                        self.chart(),
                        predicted(before[c].item, r),
                    ),
                predict_covers(gm, pv, before, before) ==> self.chart() == before,
                forall|k: int| n <= k < self.chart().len() ==> new_at(self.chart(), k, k),
                self.chart() == predict_edges(gm, pv, before, b as int),
            decreases n - b,
        {
            let rule_ix = self.chart[b].d_rule.rule;
            let dot = self.chart[b].d_rule.dot_pos;
            let end = self.chart[b].span.1;
            let ghost base = self.chart();
            let ghost src = before[b as int].item;
            proof {
                assert(self.chart()[b as int] == before[b as int]);
                assert(self.chart()[b as int].item.fits(gm));
            }
            let rule = g.rule(rule_ix);
            proof {
                if dot < rule.1.len() {
                    assert(gm.rules[rule_ix as int].rhs[dot as int] == rule.1@[dot as int]@);
                }
            }
            if !(dot < rule.1.len() && !self.privileged.contains(&rule.1[dot])
                && rule.1[dot].is_non_terminal()) {
                proof {
                    assert forall|r: int| !#[trigger] predicts(gm, pv, src, r) by {}
                    lemma_predict_rules_idle(gm, pv, base, src, count as int);
                }
            } else {
                let sym = &rule.1[dot];
                proof {
                    assert(gm.rules[rule_ix as int].rhs[dot as int] == sym@);
                }
                let mut r: usize = 0;
                while r < count
                    invariant
                        self.wf(),
                        self.extends(&old_self),
                        g@ == gm,
                        gm == old_self.grammar(),
                        pv == old_self.privileged(),
                        before == old_self.chart(),
                        n == before.len(),
                        count == gm.rules.len(),
                        b < n,
                        r <= count,
                        before[b as int].item == (Item {
                            rule: rule_ix as int,
                            dot: dot as int,
                            start: before[b as int].item.start,
                            end: end as int,
                        }),
                        before[b as int].item.is_open(gm),
                        before[b as int].item.next(gm) == sym@,
                        sym@ is NonTerminal,
                        !pv.contains(sym@),
                        forall|k: int|
                            n <= k < self.chart().len() ==> predicted_below(
                                gm,
                                pv,
                                self.chart(),
                                k,
                                n as int,
                            ),
                        forall|c: int, q: int|
                            0 <= c < b && #[trigger] predicts(gm, pv, before[c].item, q)
                                ==> has_item(self.chart(), predicted(before[c].item, q)),
                        forall|q: int|
                            0 <= q < r && #[trigger] predicts(gm, pv, before[b as int].item, q)
                                ==> has_item(self.chart(), predicted(before[b as int].item, q)),
                        predict_covers(gm, pv, before, before) ==> self.chart() == before,
                        src == before[b as int].item,
                        forall|k: int| n <= k < self.chart().len() ==> new_at(self.chart(), k, k),
                        self.chart() == predict_rules(gm, pv, base, src, r as int),
                    decreases count - r,
                {
                    if g.rule(r).0 == *sym {
                        let ghost prev = self.chart();
                        let added = self.add(r, 0, end, end, Vec::new());
                        proof {
                            let now = self.chart();
                            let it = predicted(before[b as int].item, r as int);
                            lemma_new_at_push(prev, now, n as int);
                            assert(predicts(gm, pv, before[b as int].item, r as int));
                            if added {
                                assert(now[prev.len() as int].item == it);
                            } else {
                                lemma_has_item_grows(prev, now, it);
                            }
                            assert(has_item(now, it));
                            assert forall|k: int| n <= k < now.len() implies predicted_below(
                                gm,
                                pv,
                                now,
                                k,
                                n as int,
                            ) by {
                                if k < prev.len() {
                                    lemma_predicted_grows(gm, pv, prev, now, k, n as int);
                                } else {
                                    assert(now[b as int] == before[b as int]);
                                }
                            }
                            assert forall|c: int, q: int|
                                0 <= c < b && #[trigger] predicts(
                                    gm,
                                    pv,
                                    before[c].item,
                                    q,
                                ) implies has_item(now, predicted(before[c].item, q)) by {
                                lemma_has_item_grows(prev, now, predicted(before[c].item, q));
                            }
                            assert forall|q: int|
                                0 <= q < r + 1 && #[trigger] predicts(
                                    gm,
                                    pv,
                                    before[b as int].item,
                                    q,
                                ) implies has_item(
                                now,
                                predicted(before[b as int].item, q),
                            ) by {
                                if q < r {
                                    lemma_has_item_grows(
                                        prev,
                                        now,
                                        predicted(before[b as int].item, q),
                                    );
                                }
                            }
                        }
                    }
                    r += 1;
                }
            }
            b += 1;
        }
    }

    /// The scan phase, once over the chart as it stands. For every edge whose dot stands
    /// before a symbol and whose span ends before the end of the input: where the symbol
    /// is privileged and the grammar has the rule from it to the next token, that rule is
    /// added, completed, over that one token; and where the symbol is the next token, the
    /// edge is added with the dot and the right end moved on by one. Nothing is added
    /// that the chart holds already: no edge that is added has the identity of an edge
    /// before it. The edges that are added are not themselves scanned in this run; where
    /// the chart holds all that scanning gives, nothing changes.
    pub fn scan(&mut self, input: &Vec<Symbol>)
        requires
            old(self).wf(),
        ensures
            final(self).wf(),
            final(self).extends(old(self)),
            forall|k: int|
                old(self).chart().len() <= k < final(self).chart().len() ==> scanned_below(
                    final(self).grammar(),
                    final(self).privileged(),
                    symbols_view(input@),
                    final(self).chart(),
                    k,
                    old(self).chart().len() as int,
                ),
            scan_covers(
                final(self).grammar(),
                final(self).privileged(),
                symbols_view(input@),
                old(self).chart(),
                final(self).chart(),
            ),
            scan_covers(
                old(self).grammar(),
                old(self).privileged(),
                symbols_view(input@),
                old(self).chart(),
                old(self).chart(),
            ) ==> final(self).chart() == old(self).chart(),
            forall|k: int|
                old(self).chart().len() <= k < final(self).chart().len() ==> new_at(
                    final(self).chart(),
                    k,
                    k,
                ),
            final(self).chart() == after_scan(
                old(self).grammar(),
                old(self).privileged(),
                symbols_view(input@),
                old(self).chart(),
            ),
    {
        let g: &Grammar = self.grammar;
        let ghost gm = self.grammar();
        let ghost pv = self.privileged();
        let ghost w = symbols_view(input@);
        let ghost before = self.chart();
        let ghost old_self = *self;
        let n = self.chart.len();
        let mut b: usize = 0;
        while b < n
            invariant
                self.wf(),
                self.extends(&old_self),
                g@ == gm,
                gm == old_self.grammar(),
                pv == old_self.privileged(),
                before == old_self.chart(),
                w == symbols_view(input@),
                n == before.len(),
                b <= n,
                forall|k: int|
                    n <= k < self.chart().len() ==> scanned_below(
                        gm,
                        pv,
                        w,
                        self.chart(),
                        k,
                        n as int,
                    ),
                forall|c: int, r: int|
                    0 <= c < b && #[trigger] realizes(gm, pv, w, before[c].item, r) ==> has_item(
                        self.chart(),
                        realized(before[c].item, r),
                    ),
                forall|c: int|
                    0 <= c < b && shifts(gm, w, (#[trigger] before[c]).item) ==> has_item(
                        self.chart(),
                        shifted(before[c].item),
                    ),
                scan_covers(gm, pv, w, before, before) ==> self.chart() == before,
                forall|k: int| n <= k < self.chart().len() ==> new_at(self.chart(), k, k),
                self.chart() == scan_edges(gm, pv, w, before, b as int),
            decreases n - b,
        {
            let ghost base = self.chart();
            let rule_ix = self.chart[b].d_rule.rule;
            let dot = self.chart[b].d_rule.dot_pos;
            let start = self.chart[b].span.0;
            let end = self.chart[b].span.1;
            let ghost src = before[b as int].item;
            proof {
                assert(self.chart()[b as int] == before[b as int]);
                assert(src.fits(gm));
            }
            let rule = g.rule(rule_ix);
            if dot < rule.1.len() && end < input.len() {
                let sym = &rule.1[dot];
                let token = &input[end];
                proof {
                    assert(src.next(gm) == sym@);
                    assert(w[end as int] == token@);
                }
                let ghost realizing = exists|q: int| realizes(gm, pv, w, src, q);
                let ghost which = choose|q: int| realizes(gm, pv, w, src, q);
                if self.privileged.contains(sym) {
                    match g.terminal_rule_index(sym, token) {
                        Some(r) => {
                            let ghost prev = self.chart();
                            let added = self.add(r, 1, end, end + 1, Vec::new());
                            proof {
                                assert(realizes(gm, pv, w, src, r as int));
                                assert(gm.rules[which] == gm.rules[r as int]);
                                assert(which == r);
                                let now = self.chart();
                                let it = realized(src, r as int);
                                lemma_new_at_push(prev, now, n as int);
                                assert(gm.rules[r as int].rhs.len() == 1);
                                assert(realizes(gm, pv, w, src, r as int));
                                if added {
                                    assert(now[prev.len() as int].item == it);
                                } else {
                                    lemma_has_item_grows(prev, now, it);
                                }
                                assert(has_item(now, it));
                                self.lemma_scan_step(&old_self, input, prev, n as int, b as int);
                                assert forall|q: int| #[trigger]
                                    realizes(gm, pv, w, src, q) implies has_item(
                                    now,
                                    realized(src, q),
                                ) by {
                                    assert(gm.rules[q] == gm.rules[r as int]);
                                    assert(q == r);
                                }
                            }
                        },
                        None => {
                            proof {
                                assert forall|q: int| #[trigger]
                                    realizes(gm, pv, w, src, q) implies false by {
                                    assert(gm.rules.contains(gm.rules[q]));
                                }
                            }
                        },
                    }
                }
                proof {
                    assert(forall|q: int| #[trigger]
                        realizes(gm, pv, w, src, q) ==> has_item(self.chart(), realized(src, q)));
                    assert(self.chart() == if realizing {
                        with_edge(base, realized(src, which), Seq::empty())
                    } else {
                        base
                    });
                }
                if *sym == *token {
                    let ghost prev = self.chart();
                    let added = self.add(rule_ix, dot + 1, start, end + 1, Vec::new());
                    proof {
                        let now = self.chart();
                        let it = shifted(src);
                        lemma_new_at_push(prev, now, n as int);
                        assert(shifts(gm, w, src));
                        if added {
                            assert(now[prev.len() as int].item == it);
                        } else {
                            lemma_has_item_grows(prev, now, it);
                        }
                        assert(has_item(now, it));
                        self.lemma_scan_step(&old_self, input, prev, n as int, b as int);
                        assert forall|q: int| #[trigger]
                            realizes(gm, pv, w, src, q) implies has_item(now, realized(src, q)) by {
                            lemma_has_item_grows(prev, now, realized(src, q));
                        }
                    }
                }
            }
            b += 1;
        }
    }

    /// After one more edge that was scanned from edge `b` of the old chart, the chart
    /// still holds what an unfinished scan holds: every new edge was scanned, and what
    /// scanning gives from the edges before `b` is there.
    proof fn lemma_scan_step(
        &self,
        old_self: &Parser,
        input: &Vec<Symbol>,
        prev: Seq<EdgeModel>,
        n: int,
        b: int,
    )
        requires
            0 <= b < n,
            n == old_self.chart().len(),
            old_self.chart().is_prefix_of(prev),
            prev.is_prefix_of(self.chart()),
            self.chart().len() <= prev.len() + 1,
            self.chart().len() == prev.len() + 1 ==> self.chart().last().history.len() == 0 && ({
                ||| exists|r: int| #[trigger]
                    realizes(
                        self.grammar(),
                        self.privileged(),
                        symbols_view(input@),
                        old_self.chart()[b].item,
                        r,
                    ) && self.chart().last().item == realized(old_self.chart()[b].item, r)
                ||| shifts(self.grammar(), symbols_view(input@), old_self.chart()[b].item)
                    && self.chart().last().item == shifted(old_self.chart()[b].item)
            }),
            forall|k: int|
                n <= k < prev.len() ==> scanned_below(
                    self.grammar(),
                    self.privileged(),
                    symbols_view(input@),
                    prev,
                    k,
                    n,
                ),
            forall|c: int, r: int|
                0 <= c < b && #[trigger] realizes(
                    self.grammar(),
                    self.privileged(),
                    symbols_view(input@),
                    old_self.chart()[c].item,
                    r,
                ) ==> has_item(prev, realized(old_self.chart()[c].item, r)),
            forall|c: int|
                0 <= c < b && shifts(
                    self.grammar(),
                    symbols_view(input@),
                    (#[trigger] old_self.chart()[c]).item,
                ) ==> has_item(prev, shifted(old_self.chart()[c].item)),
        ensures
            forall|k: int|
                n <= k < self.chart().len() ==> scanned_below(
                    self.grammar(),
                    self.privileged(),
                    symbols_view(input@),
                    self.chart(),
                    k,
                    n,
                ),
            forall|c: int, r: int|
                0 <= c < b && #[trigger] realizes(
                    self.grammar(),
                    self.privileged(),
                    symbols_view(input@),
                    old_self.chart()[c].item,
                    r,
                ) ==> has_item(self.chart(), realized(old_self.chart()[c].item, r)),
            forall|c: int|
                0 <= c < b && shifts(
                    self.grammar(),
                    symbols_view(input@),
                    (#[trigger] old_self.chart()[c]).item,
                ) ==> has_item(self.chart(), shifted(old_self.chart()[c].item)),
    {
        let gm = self.grammar();
        let pv = self.privileged();
        let w = symbols_view(input@);
        let before = old_self.chart();
        let now = self.chart();
        assert forall|k: int| n <= k < now.len() implies scanned_below(gm, pv, w, now, k, n) by {
            if k < prev.len() {
                lemma_scanned_grows(gm, pv, w, prev, now, k, n);
            } else {
                assert(now[b] == before[b]);
                assert(now[k] == now.last());
                if exists|r: int| #[trigger]
                    realizes(gm, pv, w, before[b].item, r) && now.last().item == realized(
                        before[b].item,
                        r,
                    ) {
                    let r = choose|r: int| #[trigger]
                        realizes(gm, pv, w, before[b].item, r) && now.last().item == realized(
                            before[b].item,
                            r,
                        );
                    assert(realizes(gm, pv, w, now[b].item, r));
                    assert(realized_below(gm, pv, w, now, k, n));
                } else {
                    assert(shifts(gm, w, now[b].item));
                    assert(shifted_below(gm, w, now, k, n));
                }
            }
        }
        assert forall|c: int, r: int|
            0 <= c < b && #[trigger] realizes(gm, pv, w, before[c].item, r) implies has_item(
            now,
            realized(before[c].item, r),
        ) by {
            lemma_has_item_grows(prev, now, realized(before[c].item, r));
        }
        assert forall|c: int|
            0 <= c < b && shifts(gm, w, (#[trigger] before[c]).item) implies has_item(
            now,
            shifted(before[c].item),
        ) by {
            lemma_has_item_grows(prev, now, shifted(before[c].item));
        }
    }

    /// One pass of completion over the chart as it stands: for every complete edge and
    /// every edge that ends where it starts with the dot before its left side, the second
    /// edge is added with the dot moved on by one, reaching to the end of the first, and
    /// with the first edge's position added to its history; unless the chart held its
    /// identity when the pass began. An identity that the pass finds in several ways is
    /// added once for each, with the history of each.
    pub fn complete_pass(&mut self)
        requires
            old(self).wf(),
        ensures
            final(self).wf(),
            final(self).extends(old(self)),
            forall|k: int|
                old(self).chart().len() <= k < final(self).chart().len() ==> completed_below(
                    final(self).grammar(),
                    final(self).chart(),
                    k,
                    old(self).chart().len() as int,
                ),
            forall|k: int|
                old(self).chart().len() <= k < final(self).chart().len() ==> new_at(
                    final(self).chart(),
                    k,
                    old(self).chart().len() as int,
                ),
            complete_covers(final(self).grammar(), old(self).chart(), final(self).chart()),
            complete_covers(old(self).grammar(), old(self).chart(), old(self).chart())
                ==> final(self).chart() == old(self).chart(),
            final(self).chart() == after_complete_pass(old(self).grammar(), old(self).chart()),
    {
        let g: &Grammar = self.grammar;
        let ghost gm = self.grammar();
        let ghost before = self.chart();
        let ghost old_self = *self;
        let n = self.chart.len();
        let mut a: usize = 0;
        while a < n
            invariant
                self.wf(),
                self.extends(&old_self),
                g@ == gm,
                gm == old_self.grammar(),
                before == old_self.chart(),
                n == before.len(),
                a <= n,
                forall|k: int|
                    n <= k < self.chart().len() ==> completed_below(gm, self.chart(), k, n as int),
                forall|c: int, d: int|
                    0 <= c < n && 0 <= d < a && #[trigger] completes(
                        gm,
                        before[c].item,
                        before[d].item,
                    ) ==> has_item(self.chart(), completed(before[c].item, before[d].item)),
                complete_covers(gm, before, before) ==> self.chart() == before,
                forall|k: int| n <= k < self.chart().len() ==> new_at(self.chart(), k, n as int),
                self.chart() == complete_edges(gm, before, a as int),
            decreases n - a,
        {
            let ghost base = self.chart();
            let rule_a = self.chart[a].d_rule.rule;
            let dot_a = self.chart[a].d_rule.dot_pos;
            let start_a = self.chart[a].span.0;
            let end_a = self.chart[a].span.1;
            let ghost done = before[a as int].item;
            proof {
                assert(self.chart()[a as int] == before[a as int]);
                assert(done.fits(gm));
            }
            if dot_a != g.rule(rule_a).1.len() {
                proof {
                    lemma_complete_pairs_idle(gm, base, before, a as int, n as int);
                }
            } else {
                let head = &g.rule(rule_a).0;
                let mut b: usize = 0;
                while b < n
                    invariant
                        self.wf(),
                        self.extends(&old_self),
                        g@ == gm,
                        gm == old_self.grammar(),
                        before == old_self.chart(),
                        n == before.len(),
                        a < n,
                        b <= n,
                        done == before[a as int].item,
                        done == (Item {
                            rule: rule_a as int,
                            dot: dot_a as int,
                            start: start_a as int,
                            end: end_a as int,
                        }),
                        done.fits(gm),
                        done.is_complete(gm),
                        head@ == done.head(gm),
                        forall|k: int|
                            n <= k < self.chart().len() ==> completed_below(
                                gm,
                                self.chart(),
                                k,
                                n as int,
                            ),
                        forall|c: int, d: int|
                            0 <= c < n && 0 <= d < a && #[trigger] completes(
                                gm,
                                before[c].item,
                                before[d].item,
                            ) ==> has_item(
                                self.chart(),
                                completed(before[c].item, before[d].item),
                            ),
                        forall|c: int|
                            0 <= c < b && completes(gm, (#[trigger] before[c]).item, done)
                                ==> has_item(self.chart(), completed(before[c].item, done)),
                        complete_covers(gm, before, before) ==> self.chart() == before,
                        forall|k: int|
                            n <= k < self.chart().len() ==> new_at(self.chart(), k, n as int),
                        self.chart() == complete_pairs(gm, base, before, a as int, b as int),
                    decreases n - b,
                {
                    let rule_b = self.chart[b].d_rule.rule;
                    let dot_b = self.chart[b].d_rule.dot_pos;
                    let start_b = self.chart[b].span.0;
                    let end_b = self.chart[b].span.1;
                    let ghost open = before[b as int].item;
                    proof {
                        assert(self.chart()[b as int] == before[b as int]);
                        assert(open.fits(gm));
                    }
                    let rule = g.rule(rule_b);
                    proof {
                        if dot_b < rule.1.len() {
                            assert(open.next(gm) == rule.1@[dot_b as int]@);
                        }
                    }
                    if dot_b < rule.1.len() && end_b == start_a && rule.1[dot_b] == *head {
                        let mut history = self.chart[b].history.clone();
                        history.push(a);
                        let ghost prev = self.chart();
                        proof {
                            assert(open.next(gm) == rule.1@[dot_b as int]@);
                            assert(completes(gm, open, done));
                            assert(history@ =~= before[b as int].history.push(a));
                            assert(history@.drop_last() =~= before[b as int].history);
                            assert forall|m: int| 0 <= m < history@.len() implies (
                            #[trigger] history@[m]) < prev.len() by {
                                if m < before[b as int].history.len() {
                                    assert(history@[m] == before[b as int].history[m]);
                                }
                            }
                        }
                        proof {
                            assert(prev.subrange(0, n as int) =~= before);
                        }
                        let held = self.held_below(n, rule_b, dot_b + 1, start_b, end_a);
                        if !held {
                            self.push_edge(rule_b, dot_b + 1, start_b, end_a, history);
                        }
                        proof {
                            let now = self.chart();
                            let it = completed(open, done);
                            if !held {
                                assert(now[prev.len() as int].item == it);
                            } else {
                                lemma_has_item_grows(before, now, it);
                            }
                            assert(has_item(now, it));
                            assert forall|k: int| n <= k < now.len() implies new_at(
                                now,
                                k,
                                n as int,
                            ) by {
                                if k < prev.len() {
                                    assert(new_at(prev, k, n as int));
                                    assert forall|j: int| 0 <= j < n implies (
                                    #[trigger] now[j]).item != now[k].item by {
                                        assert(now[j] == prev[j]);
                                    }
                                } else {
                                    assert forall|j: int| 0 <= j < n implies (
                                    #[trigger] now[j]).item != now[k].item by {
                                        assert(now[j] == before[j]);
                                    }
                                }
                            }
                            assert forall|k: int| n <= k < now.len() implies completed_below(
                                gm,
                                now,
                                k,
                                n as int,
                            ) by {
                                if k < prev.len() {
                                    lemma_completed_grows(gm, prev, now, k, n as int);
                                } else {
                                    assert(now[b as int] == before[b as int]);
                                    assert(now[a as int] == before[a as int]);
                                    assert(completes(gm, now[b as int].item, now[a as int].item));
                                }
                            }
                            assert forall|c: int, d: int|
                                0 <= c < n && 0 <= d < a && #[trigger] completes(
                                    gm,
                                    before[c].item,
                                    before[d].item,
                                ) implies has_item(
                                now,
                                completed(before[c].item, before[d].item),
                            ) by {
                                lemma_has_item_grows(
                                    prev,
                                    now,
                                    completed(before[c].item, before[d].item),
                                );
                            }
                            assert forall|c: int|
                                0 <= c < b + 1 && completes(
                                    gm,
                                    (#[trigger] before[c]).item,
                                    done,
                                ) implies has_item(now, completed(before[c].item, done)) by {
                                if c < b {
                                    lemma_has_item_grows(
                                        prev,
                                        now,
                                        completed(before[c].item, done),
                                    );
                                }
                            }
                        }
                    }
                    b += 1;
                }
            }
            a += 1;
        }
    }

    /// The complete phase: passes of completion, one after the other, until a pass adds
    /// nothing. To the chart that it leaves, completion adds nothing: run once more, the
    /// phase changes nothing. Every edge that it adds has an identity that the chart did
    /// not hold before the phase.
    pub fn cont(&mut self)
        requires
            old(self).wf(),
        ensures
            final(self).wf(),
            final(self).extends(old(self)),
            forall|k: int|
                old(self).chart().len() <= k < final(self).chart().len() ==> completed_below(
                    final(self).grammar(),
                    final(self).chart(),
                    k,
                    k,
                ),
            complete_covers(final(self).grammar(), final(self).chart(), final(self).chart()),
            complete_covers(old(self).grammar(), old(self).chart(), old(self).chart())
                ==> final(self).chart() == old(self).chart(),
            forall|k: int|
                old(self).chart().len() <= k < final(self).chart().len() ==> new_at(
                    final(self).chart(),
                    k,
                    old(self).chart().len() as int,
                ),
            final(self).chart() == after_complete(old(self).grammar(), old(self).chart()),
    {
        let ghost gm = self.grammar();
        let ghost old_self = *self;
        let ghost limit = span_limit(self.chart());
        let ghost mut passes: nat = 0;
        proof {
            lemma_span_limit(self.chart());
            lemma_distinct_bounded(gm, self.privileged(), self.start_rule(), self.chart(), limit);
        }
        loop
            invariant
                self.wf(),
                self.extends(&old_self),
                gm == old_self.grammar(),
                ends_within(self.chart(), limit),
                complete_covers(gm, old_self.chart(), old_self.chart()) ==> self.chart()
                    == old_self.chart(),
                forall|k: int|
                    old_self.chart().len() <= k < self.chart().len() ==> completed_below(
                        gm,
                        self.chart(),
                        k,
                        k,
                    ),
                self.chart() == after_complete_passes(gm, old_self.chart(), passes),
                forall|k: int|
                    old_self.chart().len() <= k < self.chart().len() ==> new_at(
                        self.chart(),
                        k,
                        old_self.chart().len() as int,
                    ),
                distinct_items(self.chart()) <= item_bound(gm, limit),
            ensures
                complete_covers(gm, self.chart(), self.chart()),
                self.chart() == after_complete(gm, old_self.chart()),
            decreases item_bound(gm, limit) - distinct_items(self.chart()),
        {
            let ghost prev = self.chart();
            let before_len = self.chart.len();
            self.complete_pass();
            proof {
                let now = self.chart();
                assert forall|k: int| 0 <= k < now.len() implies (#[trigger] now[k]).item.end
                    <= limit by {
                    if k < prev.len() {
                        assert(now[k] == prev[k]);
                    } else {
                        assert(completed_below(gm, now, k, prev.len() as int));
                        let (b, a) = choose|b: int, a: int|
                            {
                                &&& 0 <= b < prev.len()
                                &&& 0 <= a < prev.len()
                                &&& #[trigger] completes(gm, now[b].item, now[a].item)
                                &&& now[k].item == completed(now[b].item, now[a].item)
                                &&& history_extends(now[k].history, now[b].history, a)
                            };
                        assert(now[a] == prev[a]);
                    }
                }
                assert forall|k: int|
                    old_self.chart().len() <= k < now.len() implies completed_below(
                    gm,
                    now,
                    k,
                    k,
                ) by {
                    if k < prev.len() {
                        lemma_completed_grows(gm, prev, now, k, k);
                    } else {
                        assert(completed_below(gm, now, k, prev.len() as int));
                        let (b, a) = choose|b: int, a: int|
                            {
                                &&& 0 <= b < prev.len()
                                &&& 0 <= a < prev.len()
                                &&& #[trigger] completes(gm, now[b].item, now[a].item)
                                &&& now[k].item == completed(now[b].item, now[a].item)
                                &&& history_extends(now[k].history, now[b].history, a)
                            };
                    }
                }
                lemma_distinct_bounded(gm, self.privileged(), self.start_rule(), now, limit);
                assert forall|k: int| old_self.chart().len() <= k < now.len() implies new_at(
                    now,
                    k,
                    old_self.chart().len() as int,
                ) by {
                    if k < prev.len() {
                        assert(new_at(prev, k, old_self.chart().len() as int));
                        assert forall|j: int| 0 <= j < old_self.chart().len() implies (
                        #[trigger] now[j]).item != now[k].item by {
                            assert(now[j] == prev[j]);
                        }
                    } else {
                        assert(new_at(now, k, prev.len() as int));
                    }
                }
                if now.len() > prev.len() {
                    assert(new_at(now, prev.len() as int, prev.len() as int));
                    lemma_new_edge_counts(prev, now);
                }
            }
            if self.chart.len() == before_len {
                proof {
                    assert(self.chart() =~= prev);
                    lemma_after_complete(gm, old_self.chart(), passes);
                }
                break;
            }
            proof {
                passes = passes + 1;
            }
        }
    }

    /// The item that accepts the input: the starting rule, all of it matched, over the
    /// whole input.
    pub open spec fn accepting(&self, input_len: int) -> Item {
        accepting_item(self.grammar(), self.start_rule(), input_len)
    }

    /// The edges of the chart that accept the input, in their order.
    pub fn get_end_edges(&self, input: &Vec<Symbol>) -> (found: Vec<Edge>)
        requires
            self.wf(),
        ensures
            edge_models(found@) == edges_with(self.chart(), self.accepting(input@.len() as int)),
            found.len() > 0 <==> has_item(self.chart(), self.accepting(input@.len() as int)),
            forall|i: int|
                0 <= i < found.len() ==> {
                    &&& (#[trigger] found[i])@.item == self.accepting(input@.len() as int)
                    &&& has_edge(self.chart(), found[i]@, self.chart().len() as int)
                },
    {
        let g: &Grammar = self.grammar;
        let dot = g.rule(self.starting_rule).1.len();
        let end = Edge::new(self.starting_rule, dot, 0, input.len(), Vec::new());
        let ghost goal = self.accepting(input@.len() as int);
        let ghost wanted = |e: EdgeModel| e.item == goal;
        let mut found: Vec<Edge> = Vec::new();
        let mut k: usize = 0;
        proof {
            assert(edge_models(found@) =~= self.chart().subrange(0, 0).filter(wanted));
        }
        while k < self.chart.len()
            invariant
                self.wf(),
                k <= self.chart().len(),
                goal == self.accepting(input@.len() as int),
                wanted == |e: EdgeModel| e.item == goal,
                end@.item == goal,
                edge_models(found@) == self.chart().subrange(0, k as int).filter(wanted),
                found.len() == 0 ==> forall|j: int|
                    0 <= j < k ==> (#[trigger] self.chart()[j]).item != goal,
                forall|i: int|
                    0 <= i < found.len() ==> {
                        &&& (#[trigger] found[i])@.item == goal
                        &&& has_edge(self.chart(), found[i]@, k as int)
                    },
            decreases self.chart().len() - k,
        {
            proof {
                let upto = self.chart().subrange(0, k + 1);
                assert(upto.drop_last() =~= self.chart().subrange(0, k as int));
                assert(upto.last() == self.chart()[k as int]);
                assert(self.chart()[k as int] == self.chart@[k as int]@);
                reveal(Seq::filter);
            }
            let ghost held = found@;
            if self.chart[k] == end {
                let ghost before = edge_models(found@);
                found.push(self.chart[k].clone());
                proof {
                    assert(edge_models(found@) =~= before.push(self.chart()[k as int]));
                }
            }
            proof {
                assert forall|i: int| 0 <= i < found.len() implies (#[trigger] found[i])@.item
                    == goal && has_edge(self.chart(), found[i]@, k + 1) by {
                    if i < held.len() {
                        assert(found[i] == held[i]);
                        assert(has_edge(self.chart(), held[i]@, k as int));
                        let j = choose|j: int|
                            0 <= j < k && j < self.chart().len() && #[trigger] self.chart()[j]
                                == held[i]@;
                        assert(self.chart()[j] == found[i]@);
                    } else {
                        assert(self.chart()[k as int] == found[i]@);
                    }
                }
            }
            k += 1;
        }
        proof {
            assert(self.chart().subrange(0, k as int) =~= self.chart());
            if found.len() > 0 {
                assert(has_edge(self.chart(), found[0]@, k as int));
                let j = choose|j: int|
                    0 <= j < k && j < self.chart().len() && #[trigger] self.chart()[j] == found[0]@;
                assert(self.chart()[j].item == goal);
            }
        }
        found
    }

    /// The derivation that an edge stands for, as the sequence of its rules: the edge's
    /// own rule first, then what the edges of its history stand for, the last of them
    /// first.
    pub fn reconstruct(&self, end_edge: Edge) -> (trace: Vec<Rule>)
        requires
            self.wf(),
            end_edge@.item.rule < self.grammar().rules.len(),
            history_below(end_edge@.history, self.chart().len() as int),
        ensures
            productions(trace@) == rules_at(self.grammar(), trace_from(self.chart(), end_edge@)),
    {
        let g: &Grammar = self.grammar;
        let ghost gm = self.grammar();
        let ghost chart = self.chart();
        let n = self.chart.len();
        let ghost target = seq![end_edge@.item.rule] + history_trace(
            chart,
            end_edge@.history,
            n as int,
        );
        let mut out: Vec<Rule> = Vec::new();
        out.push(clone_rule(g.rule(end_edge.d_rule.rule)));
        let ghost mut emitted: Seq<int> = seq![end_edge@.item.rule];
        let mut stack: Vec<usize> = end_edge.history;
        proof {
            assert(productions(out@) =~= rules_at(gm, emitted));
        }
        while stack.len() > 0
            invariant
                self.wf(),
                g@ == gm,
                gm == self.grammar(),
                chart == self.chart(),
                n == chart.len(),
                history_below(stack@, n as int),
                productions(out@) == rules_at(gm, emitted),
                forall|i: int|
                    0 <= i < emitted.len() ==> 0 <= #[trigger] emitted[i] < gm.rules.len(),
                emitted + history_trace(chart, stack@, n as int) == target,
            decreases history_trace(chart, stack@, n as int).len(),
        {
            let ghost full = stack@;
            let k = stack.pop().unwrap();
            let ghost rest = stack@;
            let edge = &self.chart[k];
            proof {
                assert(full.last() == k);
                assert(full.drop_last() =~= rest);
                assert(history_below(rest, n as int)) by {
                    assert forall|m: int| 0 <= m < rest.len() implies (#[trigger] rest[m]) < n by {
                        assert(rest[m] == full[m]);
                    }
                }
                assert(chart[k as int].item.fits(gm));
            }
            let ghost before_out = out@;
            let ghost before_emitted = emitted;
            out.push(clone_rule(g.rule(edge.d_rule.rule)));
            proof {
                emitted = emitted.push(edge@.item.rule);
                assert(productions(before_out).len() == before_out.len());
                assert(rules_at(gm, before_emitted).len() == before_emitted.len());
                assert(before_out.len() == before_emitted.len());
                assert(production(out@[before_out.len() as int]) == gm.rules[edge@.item.rule]);
                assert forall|i: int| 0 <= i < out@.len() implies productions(out@)[i] == rules_at(
                    gm,
                    emitted,
                )[i] by {
                    if i < before_out.len() {
                        assert(out@[i] == before_out[i]);
                        assert(productions(before_out)[i] == rules_at(gm, before_emitted)[i]);
                        assert(emitted[i] == before_emitted[i]);
                    }
                }
                assert(productions(out@) =~= rules_at(gm, emitted));
            }
            let mut i: usize = 0;
            while i < edge.history.len()
                invariant
                    i <= edge.history@.len(),
                    edge@ == chart[k as int],
                    k < n,
                    n == chart.len(),
                    chart_ok(gm, self.privileged(), self.start_rule(), chart),
                    stack@ == rest + edge.history@.subrange(0, i as int),
                decreases edge.history@.len() - i,
            {
                stack.push(edge.history[i]);
                proof {
                    assert(edge.history@.subrange(0, i + 1) =~= edge.history@.subrange(
                        0,
                        i as int,
                    ).push(edge.history@[i as int]));
                }
                i += 1;
            }
            proof {
                let hk = edge.history@;
                assert(hk.subrange(0, hk.len() as int) =~= hk);
                assert(history_below(hk, k as int));
                assert(history_below(stack@, n as int)) by {
                    assert forall|m: int| 0 <= m < stack@.len() implies (#[trigger] stack@[m])
                        < n by {
                        if m >= rest.len() {
                            assert(stack@[m] == hk[m - rest.len()]);
                        } else {
                            assert(stack@[m] == rest[m]);
                        }
                    }
                }
                lemma_history_trace_concat(chart, rest, hk, n as int);
                lemma_history_trace_limit(chart, hk, k as int, n as int);
                assert(history_trace(chart, full, n as int) == (seq![chart[k as int].item.rule]
                    + history_trace(chart, hk, k as int)) + history_trace(chart, rest, n as int));
                assert(emitted + history_trace(chart, stack@, n as int) =~= target);
            }
        }
        proof {
            assert(emitted + history_trace(chart, stack@, n as int) =~= emitted);
        }
        out
    }

    /// One round: predict, scan, complete. Tells whether the chart grew, which it does
    /// unless the inference rules add nothing to it.
    pub fn advance(&mut self, input: &Vec<Symbol>) -> (grew: bool)
        requires
            old(self).wf(),
        ensures
            final(self).wf(),
            final(self).extends(old(self)),
            grew == (final(self).chart().len() > old(self).chart().len()),
            inferred_from(
                final(self).grammar(),
                final(self).privileged(),
                symbols_view(input@),
                final(self).chart(),
                old(self).chart().len() as int,
            ),
            grew <==> !saturated(
                old(self).grammar(),
                old(self).privileged(),
                symbols_view(input@),
                old(self).chart(),
            ),
            grew ==> new_at(
                final(self).chart(),
                old(self).chart().len() as int,
                old(self).chart().len() as int,
            ),
            final(self).chart() == after_round(
                old(self).grammar(),
                old(self).privileged(),
                symbols_view(input@),
                old(self).chart(),
            ),
    {
        let ghost gm = self.grammar();
        let ghost pv = self.privileged();
        let ghost w = symbols_view(input@);
        let ghost c0 = self.chart();
        let before_len = self.chart.len();
        self.predict();
        let ghost c1 = self.chart();
        self.scan(input);
        let ghost c2 = self.chart();
        self.cont();
        proof {
            let c3 = self.chart();
            assert(c1.is_prefix_of(c3));
            assert forall|k: int| c0.len() <= k < c3.len() implies #[trigger] inferred(
                gm,
                pv,
                w,
                c3,
                k,
            ) by {
                if k < c1.len() {
                    lemma_predicted_inferred(gm, pv, w, c1, k, c0.len() as int);
                    lemma_inferred_grows(gm, pv, w, c1, c3, k);
                } else if k < c2.len() {
                    lemma_scanned_inferred(gm, pv, w, c2, k, c1.len() as int);
                    lemma_inferred_grows(gm, pv, w, c2, c3, k);
                } else {
                    assert(completed_below(gm, c3, k, k));
                }
            }
            if c3.len() == c0.len() {
                assert(c1 =~= c0);
                assert(c2 =~= c0);
                assert(c3 =~= c0);
            } else {
                let n = c0.len() as int;
                assert forall|j: int| 0 <= j < n implies (#[trigger] c3[j]).item != c3[n].item by {
                    assert(c3[j] == c0[j]);
                    if c1.len() > c0.len() {
                        assert(new_at(c1, n, n));
                        assert(c1[j] == c0[j] && c3[n] == c1[n]);
                    } else if c2.len() > c1.len() {
                        assert(c1 =~= c0);
                        assert(new_at(c2, n, n));
                        assert(c2[j] == c0[j] && c3[n] == c2[n]);
                    } else {
                        assert(c1 =~= c0);
                        assert(c2 =~= c0);
                        assert(new_at(c3, n, n));
                    }
                }
            }
        }
        self.chart.len() > before_len
    }

    /// Parses the input. The tokens are checked first: if one is no declared terminal
    /// the chart stays as it is. Then rounds of predict, scan and complete follow until
    /// the chart holds an accepting edge or a round adds nothing. The result holds the
    /// derivation of each accepting edge; it is empty where there is no derivation.
    ///
    /// There is one derivation for each accepting edge, in the order of the edges: an
    /// input that the last pass of completion found in several ways has several. The
    /// chart that is left is the chart after that many rounds, and there are fewer
    /// rounds than there are items. Every edge that was added follows from edges before
    /// it; where no edge accepts, the inference rules add nothing to the chart. On a
    /// parser that was not used before, a derivation is found if and only if the
    /// accepting item is deducible, and then the grammar derives the input from the
    /// start symbol if its left sides carry the non-terminal tag; for a traceable
    /// grammar the derivation that is returned, applied rule by rule to the last
    /// non-terminal, rewrites the start symbol to the input.
    pub fn parse(&mut self, input: Vec<&str>) -> (r: Result<Vec<Vec<Rule>>, String>)
        requires
            old(self).wf(),
        ensures
            final(self).wf(),
            final(self).extends(old(self)),
            match r {
                Err(e) => {
                    &&& e@ == msg_token_undeclared()
                    &&& !tokens_declared(final(self).grammar(), tokens_of(input@))
                    &&& final(self).chart() == old(self).chart()
                },
                Ok(traces) => {
                    &&& tokens_declared(final(self).grammar(), tokens_of(input@))
                    &&& inferred_from(
                        final(self).grammar(),
                        final(self).privileged(),
                        tokens_of(input@),
                        final(self).chart(),
                        old(self).chart().len() as int,
                    )
                    &&& traces.len() == edges_with(
                        final(self).chart(),
                        final(self).accepting(input@.len() as int),
                    ).len()
                    &&& forall|i: int|
                        0 <= i < traces.len() ==> productions((#[trigger] traces[i])@)
                            == rules_at(
                            final(self).grammar(),
                            trace_from(
                                final(self).chart(),
                                edges_with(
                                    final(self).chart(),
                                    final(self).accepting(input@.len() as int),
                                )[i],
                            ),
                        )
                    &&& traces.len() > 0 <==> has_item(
                        final(self).chart(),
                        final(self).accepting(input@.len() as int),
                    )
                    &&& traces.len() == 0 ==> saturated(
                        final(self).grammar(),
                        final(self).privileged(),
                        tokens_of(input@),
                        final(self).chart(),
                    )
                    &&& rounds_end_at(
                        final(self).grammar(),
                        final(self).privileged(),
                        tokens_of(input@),
                        old(self).chart(),
                        final(self).accepting(input@.len() as int),
                        final(self).chart(),
                    )
                    &&& old(self).chart().len() == 1 ==> (traces.len() > 0 <==> recognizes(
                        final(self).grammar(),
                        final(self).privileged(),
                        final(self).start_rule(),
                        tokens_of(input@),
                    ))
                    &&& old(self).chart().len() == 1 && heads_tagged(final(self).grammar())
                        && traces.len() > 0 ==> derives(
                        final(self).grammar(),
                        seq![final(self).grammar().start],
                        tokens_of(input@),
                    )
                    &&& old(self).chart().len() == 1 && traceable(final(self).grammar())
                        ==> forall|i: int|
                        0 <= i < traces.len() ==> rewrite(
                            seq![final(self).grammar().start],
                            productions((#[trigger] traces[i])@),
                        ) == Some(tokens_of(input@))
                },
            },
    {
        let g: &Grammar = self.grammar;
        let ghost gm = self.grammar();
        let ghost pv = self.privileged();
        let ghost old_self = *self;
        let ghost w = tokens_of(input@);
        let mut tokens: Vec<Symbol> = Vec::new();
        let mut i: usize = 0;
        while i < input.len()
            invariant
                i <= input.len(),
                tokens.len() == i,
                self.wf(),
                self.extends(&old_self),
                self.chart() == old_self.chart(),
                gm == self.grammar(),
                g@ == gm,
                w == tokens_of(input@),
                forall|j: int| 0 <= j < i ==> (#[trigger] tokens@[j])@ == w[j],
                forall|j: int| 0 <= j < i ==> gm.terminals.contains(#[trigger] w[j]),
            decreases input.len() - i,
        {
            let name: &str = input[i];
            let token = Symbol::Terminal(name.to_string());
            if !g.in_terminals(&token) {
                proof {
                    assert(!gm.terminals.contains(w[i as int]));
                }
                return Err("Input symbol not in grammar's terminals".to_string());
            }
            tokens.push(token);
            i += 1;
        }
        proof {
            assert(symbols_view(tokens@) =~= w);
            lemma_span_limit(self.chart());
        }
        let ghost limit = if span_limit(self.chart()) > w.len() {
            span_limit(self.chart())
        } else {
            w.len() as int
        };
        let mut found = self.get_end_edges(&tokens);
        let ghost goal = self.accepting(w.len() as int);
        let ghost mut rounds: nat = 0;
        proof {
            lemma_distinct_bounded(gm, pv, self.start_rule(), self.chart(), limit);
        }
        loop
            invariant
                goal == self.accepting(w.len() as int),
                limit == if span_limit(old_self.chart()) > w.len() {
                    span_limit(old_self.chart())
                } else {
                    w.len() as int
                },
                1 + rounds <= distinct_items(self.chart()) <= item_bound(gm, limit),
                self.chart() == after_rounds(gm, pv, w, old_self.chart(), rounds),
                forall|m: nat|
                    m < rounds ==> !has_item(
                        #[trigger] after_rounds(gm, pv, w, old_self.chart(), m),
                        goal,
                    ) && after_round(gm, pv, w, after_rounds(gm, pv, w, old_self.chart(), m))
                        != after_rounds(gm, pv, w, old_self.chart(), m),
                self.wf(),
                self.extends(&old_self),
                gm == old_self.grammar(),
                pv == old_self.privileged(),
                w == symbols_view(tokens@),
                w.len() <= limit,
                ends_within(self.chart(), limit),
                inferred_from(gm, pv, w, self.chart(), old_self.chart().len() as int),
                edge_models(found@) == edges_with(self.chart(), goal),
                found.len() > 0 <==> has_item(self.chart(), goal),
                forall|i: int|
                    0 <= i < found.len() ==> {
                        &&& (#[trigger] found[i])@.item == goal
                        &&& has_edge(self.chart(), found[i]@, self.chart().len() as int)
                    },
            ensures
                found.len() == 0 ==> saturated(gm, pv, w, self.chart()),
                has_item(self.chart(), goal) || after_round(gm, pv, w, self.chart())
                    == self.chart(),
            decreases item_bound(gm, limit) - distinct_items(self.chart()),
        {
            if found.len() > 0 {
                break;
            }
            let ghost prev = self.chart();
            let grew = self.advance(&tokens);
            proof {
                let now = self.chart();
                assert forall|k: int|
                    old_self.chart().len() <= k < now.len() implies #[trigger] inferred(
                    gm,
                    pv,
                    w,
                    now,
                    k,
                ) by {
                    if k < prev.len() {
                        lemma_inferred_grows(gm, pv, w, prev, now, k);
                    }
                }
                assert forall|k: int| 0 <= k < prev.len() implies (#[trigger] now[k]).item.end
                    <= limit by {
                    assert(now[k] == prev[k]);
                }
                lemma_inferred_ends(
                    gm,
                    pv,
                    w,
                    now,
                    prev.len() as int,
                    now.len() as int,
                    limit,
                );
                lemma_distinct_bounded(gm, pv, self.start_rule(), now, limit);
                if grew {
                    lemma_new_edge_counts(prev, now);
                }
            }
            if !grew {
                proof {
                    assert(self.chart() =~= prev);
                }
                break;
            }
            proof {
                rounds = rounds + 1;
            }
            found = self.get_end_edges(&tokens);
        }
        let ghost fresh = old_self.chart().len() == 1;
        proof {
            assert(rounds < round_limit(gm, old_self.chart(), w.len() as int));
            if fresh {
                if has_item(self.chart(), goal) {
                    let k = choose|k: int|
                        0 <= k < self.chart().len() && (#[trigger] self.chart()[k]).item == goal;
                    lemma_chart_deducible(gm, pv, self.start_rule(), w, self.chart(), k);
                    if heads_tagged(gm) {
                        lemma_recognition_sound(gm, pv, self.start_rule(), w);
                    }
                } else {
                    lemma_saturated_exact(gm, pv, self.start_rule(), w, self.chart(), goal);
                }
            }
        }
        let mut traces: Vec<Vec<Rule>> = Vec::new();
        let mut j: usize = 0;
        while j < found.len()
            invariant
                self.wf(),
                gm == self.grammar(),
                pv == self.privileged(),
                w == tokens_of(input@),
                goal == self.accepting(w.len() as int),
                fresh ==> inferred_from(gm, pv, w, self.chart(), 1),
                j <= found.len(),
                traces.len() == j,
                fresh && traceable(gm) ==> forall|i: int|
                    0 <= i < j ==> rewrite(seq![gm.start], productions((#[trigger] traces[i])@))
                        == Some(w),
                forall|i: int|
                    0 <= i < found.len() ==> {
                        &&& (#[trigger] found[i])@.item == goal
                        &&& has_edge(self.chart(), found[i]@, self.chart().len() as int)
                    },
                forall|i: int|
                    0 <= i < j ==> productions((#[trigger] traces[i])@) == rules_at(
                        gm,
                        trace_from(self.chart(), found[i]@),
                    ),
            decreases found.len() - j,
        {
            let edge = found[j].clone();
            proof {
                assert(has_edge(self.chart(), found[j as int]@, self.chart().len() as int));
                let k = choose|k: int|
                    0 <= k < self.chart().len() && #[trigger] self.chart()[k] == found[j as int]@;
                assert(self.chart()[k].item.fits(gm));
                assert(history_below(self.chart()[k].history, k));
                lemma_history_trace_limit(
                    self.chart(),
                    edge@.history,
                    k,
                    self.chart().len() as int,
                );
                assert(trace_from(self.chart(), edge@) == edge_trace(self.chart(), k));
                if fresh && traceable(gm) {
                    lemma_derivation_sound(gm, pv, self.start_rule(), w, self.chart(), k);
                }
            }
            let trace = self.reconstruct(edge);
            traces.push(trace);
            j += 1;
        }
        proof {
            assert forall|i: int| 0 <= i < traces.len() implies found[i]@ == edges_with(
                self.chart(),
                goal,
            )[i] by {
                assert(edge_models(found@)[i] == found[i]@);
            }
            assert(edge_models(found@).len() == found.len());
        }
        Ok(traces)
    }
}

/// The terminals with the given names, in order.
pub open spec fn tokens_of(names: Seq<&str>) -> Seq<Sym> {
    Seq::new(names.len(), |i: int| Sym::Terminal(names[i]@))
}

/// Every token is a declared terminal of the grammar.
pub open spec fn tokens_declared(g: GrammarModel, tokens: Seq<Sym>) -> bool {
    forall|i: int| 0 <= i < tokens.len() ==> g.terminals.contains(#[trigger] tokens[i])
}

} // verus!
