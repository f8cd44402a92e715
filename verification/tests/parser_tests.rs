use chart_parser::chart::{DottedRule, Edge};
use chart_parser::grammar::{
    create_non_terminal_set, create_rule_set, create_terminal_set, Grammar, Rule, Symbol,
    SymbolSet, SymbolType,
};
use chart_parser::parser::Parser;

fn nt(name: &str) -> Symbol {
    Symbol::NonTerminal(name.to_string())
}

fn t(name: &str) -> Symbol {
    Symbol::Terminal(name.to_string())
}

fn tokens(names: &[&str]) -> Vec<Symbol> {
    names.iter().map(|n| t(n)).collect()
}

fn english() -> Grammar {
    let non_terminals = create_non_terminal_set(vec!["S", "NP", "VP", "PP", "N", "V", "P"]);
    let terminals = create_terminal_set(vec!["can", "fish", "rivers", "they", "in", "December"]);
    let rules = create_rule_set(vec![
        ("S", vec![("NP", SymbolType::NT), ("VP", SymbolType::NT)]),
        ("NP", vec![("N", SymbolType::NT), ("PP", SymbolType::NT)]),
        ("NP", vec![("N", SymbolType::NT)]),
        ("PP", vec![("P", SymbolType::NT), ("NP", SymbolType::NT)]),
        ("VP", vec![("VP", SymbolType::NT), ("PP", SymbolType::NT)]),
        ("VP", vec![("V", SymbolType::NT), ("VP", SymbolType::NT)]),
        ("VP", vec![("V", SymbolType::NT), ("NP", SymbolType::NT)]),
        ("VP", vec![("V", SymbolType::NT)]),
        ("N", vec![("can", SymbolType::T)]),
        ("N", vec![("fish", SymbolType::T)]),
        ("N", vec![("rivers", SymbolType::T)]),
        ("N", vec![("they", SymbolType::T)]),
        ("N", vec![("December", SymbolType::T)]),
        ("P", vec![("in", SymbolType::T)]),
        ("V", vec![("can", SymbolType::T)]),
        ("V", vec![("fish", SymbolType::T)]),
    ]);
    Grammar::new(non_terminals, terminals, nt("S"), rules).unwrap()
}

fn tags() -> SymbolSet {
    create_non_terminal_set(vec!["N", "V", "P"])
}

fn letters() -> Grammar {
    Grammar::new(
        create_non_terminal_set(vec!["S", "A", "B"]),
        create_terminal_set(vec!["a", "b"]),
        nt("S"),
        create_rule_set(vec![
            ("S", vec![("A", SymbolType::NT), ("B", SymbolType::NT)]),
            ("A", vec![("a", SymbolType::T)]),
            ("B", vec![("b", SymbolType::T)]),
        ]),
    )
    .unwrap()
}

fn chain() -> Grammar {
    Grammar::new(
        create_non_terminal_set(vec!["S", "A", "B"]),
        create_terminal_set(vec!["b"]),
        nt("S"),
        create_rule_set(vec![
            ("S", vec![("A", SymbolType::NT)]),
            ("A", vec![("B", SymbolType::NT)]),
            ("B", vec![("b", SymbolType::T)]),
        ]),
    )
    .unwrap()
}

fn item(e: &Edge) -> (usize, usize, usize, usize) {
    (e.d_rule.rule, e.d_rule.dot_pos, e.span.0, e.span.1)
}

fn items(p: &Parser) -> Vec<(usize, usize, usize, usize)> {
    (0..p.chart_len()).map(|k| item(p.edge(k))).collect()
}

// Rewrites the rightmost non-terminal of the form with each rule in turn.
fn rewrite(start: Symbol, trace: &[Rule]) -> Option<Vec<Symbol>> {
    let mut form = vec![start];
    for (lhs, rhs) in trace {
        let at = form.iter().rposition(|s| s.is_non_terminal())?;
        if form[at] != *lhs {
            return None;
        }
        form.splice(at..at + 1, rhs.iter().cloned());
    }
    Some(form)
}

// Whether each edge from position `from` on differs in rule, dot or span from every
// edge before position `upto`, or before its own position where that comes first.
fn new_from(p: &Parser, from: usize, upto: usize) -> bool {
    let all = items(p);
    for k in from..all.len() {
        for j in 0..k.min(upto) {
            if all[k] == all[j] {
                return false;
            }
        }
    }
    true
}

#[test]
fn new_parser_holds_the_seed() {
    let g = english();
    let p = Parser::new(&g, tags()).unwrap();
    assert_eq!(items(&p), vec![(0, 0, 0, 0)]);
    assert!(p.edge(0).history.is_empty());
    assert!(p.holds(0, 0, 0, 0));
    assert!(!p.holds(0, 1, 0, 0));
    assert!(!p.holds(1, 0, 0, 0));
}

#[test]
fn new_parser_rejects_undeclared_privileged_symbol() {
    let g = english();
    let r = Parser::new(&g, create_non_terminal_set(vec!["N", "Adj"]));
    assert_eq!(
        r.err().unwrap(),
        "Privileged non-terminal, not in the set of non-terminals"
    );
    let r = Parser::new(&g, create_terminal_set(vec!["fish"]));
    assert_eq!(
        r.err().unwrap(),
        "Privileged non-terminal, not in the set of non-terminals"
    );
}

#[test]
fn new_parser_needs_a_starting_rule() {
    let g = Grammar::new(
        create_non_terminal_set(vec!["S", "A"]),
        create_terminal_set(vec!["a"]),
        nt("S"),
        create_rule_set(vec![("A", vec![("a", SymbolType::T)])]),
    )
    .unwrap();
    let r = Parser::new(&g, SymbolSet::new());
    assert_eq!(r.err().unwrap(), "No rule reducing the starting symbol");
}

#[test]
fn edges_compare_by_rule_dot_and_span() {
    let a = Edge::new(1, 2, 3, 4, vec![7]);
    let b = Edge { d_rule: DottedRule { rule: 1, dot_pos: 2 }, span: (3, 4), history: vec![] };
    assert_eq!(a, b);
    assert_ne!(a, Edge::new(0, 2, 3, 4, vec![7]));
    assert_ne!(a, Edge::new(1, 1, 3, 4, vec![7]));
    assert_ne!(a, Edge::new(1, 2, 2, 4, vec![7]));
    assert_ne!(a, Edge::new(1, 2, 3, 5, vec![7]));
    let c = a.clone();
    assert_eq!(c, a);
    assert_eq!(c.history, vec![7]);
}

#[test]
fn predict_adds_the_rules_for_the_symbol_behind_the_dot() {
    let g = english();
    let mut p = Parser::new(&g, tags()).unwrap();
    p.predict();
    assert_eq!(items(&p), vec![(0, 0, 0, 0), (1, 0, 0, 0), (2, 0, 0, 0)]);
    assert!(p.edge(1).history.is_empty());
    assert!(p.edge(2).history.is_empty());
}

#[test]
fn predict_leaves_privileged_symbols_alone() {
    let g = english();
    let mut p = Parser::new(&g, tags()).unwrap();
    p.predict();
    p.predict();
    p.predict();
    // NP -> . N PP and NP -> . N wait for a token: no rule for N is predicted.
    assert_eq!(p.chart_len(), 3);
    let mut q = Parser::new(&g, SymbolSet::new()).unwrap();
    q.predict();
    q.predict();
    assert_eq!(
        items(&q),
        vec![
            (0, 0, 0, 0),
            (1, 0, 0, 0),
            (2, 0, 0, 0),
            (8, 0, 0, 0),
            (9, 0, 0, 0),
            (10, 0, 0, 0),
            (11, 0, 0, 0),
            (12, 0, 0, 0),
        ]
    );
}

#[test]
fn predict_once_more_follows_the_new_edges() {
    let g = chain();
    let mut p = Parser::new(&g, SymbolSet::new()).unwrap();
    p.predict();
    assert_eq!(items(&p), vec![(0, 0, 0, 0), (1, 0, 0, 0)]);
    p.predict();
    assert_eq!(items(&p), vec![(0, 0, 0, 0), (1, 0, 0, 0), (2, 0, 0, 0)]);
    p.predict();
    assert_eq!(p.chart_len(), 3);
}

#[test]
fn scan_realizes_a_privileged_symbol() {
    let g = english();
    let mut p = Parser::new(&g, tags()).unwrap();
    p.predict();
    p.scan(&tokens(&["they", "can"]));
    assert_eq!(items(&p), vec![(0, 0, 0, 0), (1, 0, 0, 0), (2, 0, 0, 0), (11, 1, 0, 1)]);
    assert!(p.edge(3).history.is_empty());
}

#[test]
fn scan_realizes_over_the_one_token_behind_the_edge() {
    let g = Grammar::new(
        create_non_terminal_set(vec!["S", "N"]),
        create_terminal_set(vec!["a", "b"]),
        nt("S"),
        create_rule_set(vec![
            ("S", vec![("a", SymbolType::T), ("N", SymbolType::NT)]),
            ("N", vec![("b", SymbolType::T)]),
        ]),
    )
    .unwrap();
    let mut p = Parser::new(&g, create_non_terminal_set(vec!["N"])).unwrap();
    let input = tokens(&["a", "b"]);
    p.scan(&input);
    assert_eq!(items(&p), vec![(0, 0, 0, 0), (0, 1, 0, 1)]);
    p.scan(&input);
    assert_eq!(items(&p), vec![(0, 0, 0, 0), (0, 1, 0, 1), (1, 1, 1, 2)]);
    p.cont();
    assert_eq!(
        items(&p),
        vec![(0, 0, 0, 0), (0, 1, 0, 1), (1, 1, 1, 2), (0, 2, 0, 2)]
    );
    assert_eq!(p.edge(3).history, vec![2]);
    assert_eq!(p.get_end_edges(&input).len(), 1);
}

#[test]
fn scan_shifts_over_a_matching_terminal() {
    let g = letters();
    let mut p = Parser::new(&g, SymbolSet::new()).unwrap();
    p.predict();
    p.scan(&tokens(&["a", "b"]));
    assert_eq!(items(&p), vec![(0, 0, 0, 0), (1, 0, 0, 0), (1, 1, 0, 1)]);
    assert!(p.edge(2).history.is_empty());
}

#[test]
fn scan_stops_at_the_end_of_the_input() {
    let g = letters();
    let mut p = Parser::new(&g, SymbolSet::new()).unwrap();
    p.predict();
    p.scan(&tokens(&[]));
    assert_eq!(p.chart_len(), 2);
    p.scan(&tokens(&["b"]));
    assert_eq!(p.chart_len(), 2);
}

#[test]
fn complete_runs_until_nothing_is_added() {
    let g = english();
    let mut p = Parser::new(&g, tags()).unwrap();
    p.predict();
    p.scan(&tokens(&["they"]));
    p.cont();
    assert_eq!(
        items(&p),
        vec![
            (0, 0, 0, 0),
            (1, 0, 0, 0),
            (2, 0, 0, 0),
            (11, 1, 0, 1),
            (1, 1, 0, 1),
            (2, 1, 0, 1),
            (0, 1, 0, 1),
        ]
    );
    assert_eq!(p.edge(4).history, vec![3]);
    assert_eq!(p.edge(5).history, vec![3]);
    assert_eq!(p.edge(6).history, vec![5]);
}

#[test]
fn complete_pass_works_on_the_chart_as_it_stands() {
    let g = english();
    let mut p = Parser::new(&g, tags()).unwrap();
    p.predict();
    p.scan(&tokens(&["they"]));
    p.complete_pass();
    assert_eq!(p.chart_len(), 6);
    p.complete_pass();
    assert_eq!(p.chart_len(), 7);
    p.complete_pass();
    assert_eq!(p.chart_len(), 7);
}

#[test]
fn complete_twice_adds_nothing() {
    let g = english();
    let mut p = Parser::new(&g, tags()).unwrap();
    let input = tokens(&["they", "can", "fish"]);
    for _ in 0..3 {
        p.predict();
        p.scan(&input);
        p.cont();
        let n = p.chart_len();
        p.cont();
        assert_eq!(p.chart_len(), n);
    }
}

#[test]
fn phases_add_nothing_to_a_saturated_chart() {
    let g = english();
    let mut p = Parser::new(&g, tags()).unwrap();
    let input = tokens(&["fish", "in"]);
    while p.advance(&input) {}
    let n = p.chart_len();
    p.predict();
    assert_eq!(p.chart_len(), n);
    p.scan(&input);
    assert_eq!(p.chart_len(), n);
    p.cont();
    assert_eq!(p.chart_len(), n);
    assert!(!p.advance(&input));
}

#[test]
fn phases_add_only_what_the_chart_did_not_hold() {
    let g = english();
    let mut p = Parser::new(&g, tags()).unwrap();
    let input = tokens(&["they", "can", "fish", "in", "rivers", "in", "December"]);
    for _ in 0..8 {
        let n = p.chart_len();
        p.predict();
        assert!(new_from(&p, n, p.chart_len()));
        let n = p.chart_len();
        p.scan(&input);
        assert!(new_from(&p, n, p.chart_len()));
        let n = p.chart_len();
        p.cont();
        assert!(new_from(&p, n, n));
    }
}

#[test]
fn one_pass_of_completion_keeps_what_it_finds_twice() {
    let g = english();
    let mut p = Parser::new(&g, tags()).unwrap();
    let input = tokens(&["they", "fish", "can"]);
    while p.get_end_edges(&input).is_empty() {
        assert!(p.advance(&input));
    }
    assert_eq!(p.chart_len(), 39);
    // "can" as a verb and "can" as a noun: the sentence is found twice in one pass
    assert_eq!(item(p.edge(35)), (0, 2, 0, 3));
    assert_eq!(item(p.edge(37)), (0, 2, 0, 3));
    assert_eq!(p.edge(35).history, vec![5, 32]);
    assert_eq!(p.edge(37).history, vec![5, 34]);
    assert_eq!(item(p.edge(32)), (5, 2, 1, 3));
    assert_eq!(item(p.edge(34)), (6, 2, 1, 3));
    let found = p.get_end_edges(&input);
    assert_eq!(found.len(), 2);
    assert_eq!(found[0].history, vec![5, 32]);
    assert_eq!(found[1].history, vec![5, 34]);
    // what the chart held before a pass is not added again
    let n = p.chart_len();
    p.cont();
    assert_eq!(p.chart_len(), n);
}

#[test]
fn no_privileged_rule_is_ever_predicted() {
    let g = english();
    let mut p = Parser::new(&g, tags()).unwrap();
    p.parse(vec!["they", "can", "fish", "in", "rivers", "in", "December"]).unwrap();
    assert!(p.chart_len() > 1);
    for k in 1..p.chart_len() {
        let e = p.edge(k);
        if e.d_rule.dot_pos == 0 {
            let head = &g.rule(e.d_rule.rule).0;
            assert!(*head != nt("N") && *head != nt("V") && *head != nt("P"));
        }
    }
}

#[test]
fn histories_name_earlier_edges() {
    let g = english();
    let mut p = Parser::new(&g, tags()).unwrap();
    p.parse(vec!["they", "can", "fish", "in", "rivers"]).unwrap();
    for k in 0..p.chart_len() {
        for &c in &p.edge(k).history {
            assert!(c < k);
            let child = p.edge(c);
            assert_eq!(child.d_rule.dot_pos, g.rule(child.d_rule.rule).1.len());
        }
    }
}

#[test]
fn parse_finds_the_derivation_of_a_short_input() {
    let g = letters();
    let mut p = Parser::new(&g, SymbolSet::new()).unwrap();
    let traces = p.parse(vec!["a", "b"]).unwrap();
    assert_eq!(
        traces,
        vec![vec![
            (nt("S"), vec![nt("A"), nt("B")]),
            (nt("B"), vec![t("b")]),
            (nt("A"), vec![t("a")]),
        ]]
    );
    assert_eq!(
        items(&p),
        vec![
            (0, 0, 0, 0),
            (1, 0, 0, 0),
            (1, 1, 0, 1),
            (0, 1, 0, 1),
            (2, 0, 1, 1),
            (2, 1, 1, 2),
            (0, 2, 0, 2),
        ]
    );
    assert_eq!(p.edge(6).history, vec![3 - 1, 5]);
}

#[test]
fn parse_accepts_the_sentence_about_fish() {
    let g = english();
    let mut p = g.get_parser(tags()).unwrap();
    let input = vec!["they", "can", "fish", "in", "rivers", "in", "December"];
    let traces = p.parse(input.clone()).unwrap();
    assert!(!traces.is_empty());
    let all_rules: Vec<Rule> = (0..g.rule_count()).map(|k| g.rule(k).clone()).collect();
    for trace in &traces {
        assert_eq!(trace[0], (nt("S"), vec![nt("NP"), nt("VP")]));
        for rule in trace {
            assert!(all_rules.contains(rule));
        }
        assert_eq!(rewrite(nt("S"), trace), Some(tokens(&input)));
    }
    assert_eq!(p.get_end_edges(&tokens(&input)).len(), traces.len());
}

#[test]
fn parse_accepts_a_sentence_of_three_words() {
    let g = english();
    let mut p = g.get_parser(tags()).unwrap();
    let input = vec!["they", "fish", "can"];
    let traces = p.parse(input.clone()).unwrap();
    // Two readings: "can" as a verb, and "can" as a noun.
    assert_eq!(
        traces,
        vec![
            vec![
                (nt("S"), vec![nt("NP"), nt("VP")]),
                (nt("VP"), vec![nt("V"), nt("VP")]),
                (nt("VP"), vec![nt("V")]),
                (nt("V"), vec![t("can")]),
                (nt("V"), vec![t("fish")]),
                (nt("NP"), vec![nt("N")]),
                (nt("N"), vec![t("they")]),
            ],
            vec![
                (nt("S"), vec![nt("NP"), nt("VP")]),
                (nt("VP"), vec![nt("V"), nt("NP")]),
                (nt("NP"), vec![nt("N")]),
                (nt("N"), vec![t("can")]),
                (nt("V"), vec![t("fish")]),
                (nt("NP"), vec![nt("N")]),
                (nt("N"), vec![t("they")]),
            ],
        ]
    );
    assert_eq!(rewrite(nt("S"), &traces[0]), Some(tokens(&input)));
    assert_eq!(rewrite(nt("S"), &traces[1]), Some(tokens(&input)));
}

#[test]
fn parse_rejects_an_undeclared_token() {
    let g = english();
    let mut p = g.get_parser(tags()).unwrap();
    let r = p.parse(vec!["they", "fish", "can", "swim"]);
    assert_eq!(r.err().unwrap(), "Input symbol not in grammar's terminals");
    assert_eq!(p.chart_len(), 1);
    let r = p.parse(vec!["they", "swim"]);
    assert_eq!(r.err().unwrap(), "Input symbol not in grammar's terminals");
    assert_eq!(p.chart_len(), 1);
    let r = p.parse(vec!["NP"]);
    assert_eq!(r.err().unwrap(), "Input symbol not in grammar's terminals");
}

#[test]
fn parse_reports_no_derivation() {
    let g = english();
    let mut p = g.get_parser(tags()).unwrap();
    assert_eq!(p.parse(vec!["fish", "in"]).unwrap(), Vec::<Vec<Rule>>::new());
    let mut p = g.get_parser(tags()).unwrap();
    assert_eq!(p.parse(vec![]).unwrap(), Vec::<Vec<Rule>>::new());
    let mut p = g.get_parser(tags()).unwrap();
    assert_eq!(p.parse(vec!["in", "in", "in"]).unwrap(), Vec::<Vec<Rule>>::new());
    let mut p = g.get_parser(tags()).unwrap();
    assert_eq!(p.parse(vec!["they", "can", "fish", "in"]).unwrap(), Vec::<Vec<Rule>>::new());
}

#[test]
fn parse_ends_on_a_grammar_that_calls_itself() {
    let g = Grammar::new(
        create_non_terminal_set(vec!["S"]),
        create_terminal_set(vec!["a"]),
        nt("S"),
        create_rule_set(vec![
            ("S", vec![("S", SymbolType::NT), ("S", SymbolType::NT)]),
            ("S", vec![("a", SymbolType::T)]),
            ("S", vec![]),
        ]),
    )
    .unwrap();
    let mut p = g.get_parser(SymbolSet::new()).unwrap();
    let traces = p.parse(vec!["a", "a", "a"]).unwrap();
    assert!(!traces.is_empty());
    for trace in &traces {
        assert_eq!(rewrite(nt("S"), trace), Some(tokens(&["a", "a", "a"])));
    }
    // three rules, dots 0..=2, spans within 0..=3
    let mut distinct = items(&p);
    distinct.sort();
    distinct.dedup();
    assert!(distinct.len() <= 3 * 3 * 4 * 4);
}

#[test]
fn parse_accepts_the_empty_input_of_an_empty_rule() {
    let g = Grammar::new(
        create_non_terminal_set(vec!["S"]),
        create_terminal_set(vec!["a"]),
        nt("S"),
        create_rule_set(vec![("S", vec![])]),
    )
    .unwrap();
    let mut p = g.get_parser(SymbolSet::new()).unwrap();
    assert_eq!(p.parse(vec![]).unwrap(), vec![vec![(nt("S"), vec![])]]);
    assert_eq!(p.chart_len(), 1);
}

#[test]
fn advance_tells_whether_the_chart_grew() {
    let g = chain();
    let mut p = Parser::new(&g, SymbolSet::new()).unwrap();
    let input = tokens(&[]);
    assert!(p.advance(&input));
    assert_eq!(p.chart_len(), 2);
    assert!(p.advance(&input));
    assert_eq!(p.chart_len(), 3);
    assert!(!p.advance(&input));
    assert_eq!(p.chart_len(), 3);
    assert_eq!(p.get_end_edges(&input).len(), 0);
}

#[test]
fn end_edges_are_those_of_the_whole_input() {
    let g = letters();
    let mut p = Parser::new(&g, SymbolSet::new()).unwrap();
    let input = tokens(&["a", "b"]);
    assert_eq!(p.get_end_edges(&input).len(), 0);
    while p.advance(&input) {}
    let found = p.get_end_edges(&input);
    assert_eq!(found.len(), 1);
    assert_eq!(item(&found[0]), (0, 2, 0, 2));
    assert_eq!(found[0].history, vec![2, 5]);
    assert_eq!(p.get_end_edges(&tokens(&["a"])).len(), 0);
    assert_eq!(p.get_end_edges(&tokens(&["a", "b", "b"])).len(), 0);
}

#[test]
fn reconstruct_follows_the_history_last_entry_first() {
    let g = letters();
    let mut p = Parser::new(&g, SymbolSet::new()).unwrap();
    let input = tokens(&["a", "b"]);
    while p.advance(&input) {}
    assert_eq!(
        p.reconstruct(p.edge(6).clone()),
        vec![
            (nt("S"), vec![nt("A"), nt("B")]),
            (nt("B"), vec![t("b")]),
            (nt("A"), vec![t("a")]),
        ]
    );
    assert_eq!(
        p.reconstruct(p.edge(3).clone()),
        vec![(nt("S"), vec![nt("A"), nt("B")]), (nt("A"), vec![t("a")])]
    );
    assert_eq!(p.reconstruct(p.edge(1).clone()), vec![(nt("A"), vec![t("a")])]);
    assert_eq!(
        p.reconstruct(Edge::new(2, 1, 0, 0, vec![5, 5])),
        vec![(nt("B"), vec![t("b")]), (nt("B"), vec![t("b")]), (nt("B"), vec![t("b")])]
    );
}

#[test]
fn shifting_leaves_the_history_empty() {
    let g = Grammar::new(
        create_non_terminal_set(vec!["S", "A"]),
        create_terminal_set(vec!["a", "b"]),
        nt("S"),
        create_rule_set(vec![
            ("S", vec![("A", SymbolType::NT), ("b", SymbolType::T)]),
            ("A", vec![("a", SymbolType::T)]),
        ]),
    )
    .unwrap();
    let mut p = g.get_parser(SymbolSet::new()).unwrap();
    let traces = p.parse(vec!["a", "b"]).unwrap();
    assert_eq!(traces, vec![vec![(nt("S"), vec![nt("A"), t("b")])]]);
}

#[test]
fn parse_again_finds_the_same_and_adds_nothing() {
    let g = english();
    let mut p = g.get_parser(tags()).unwrap();
    let input = vec!["they", "can", "fish"];
    let first = p.parse(input.clone()).unwrap();
    let n = p.chart_len();
    let second = p.parse(input).unwrap();
    assert_eq!(first, second);
    assert!(!first.is_empty());
    assert_eq!(p.chart_len(), n);
}

#[test]
fn rounds_stay_below_the_number_of_items() {
    let g = chain();
    let mut p = Parser::new(&g, SymbolSet::new()).unwrap();
    let input = tokens(&["b", "b"]);
    let mut rounds = 0;
    while p.advance(&input) {
        rounds += 1;
    }
    assert_eq!(rounds, 2);
    // three rules, dots 0..=1, spans within 0..=2
    assert!(rounds < 3 * 2 * 3 * 3);
    assert!(p.chart_len() <= 3 * 2 * 3 * 3);
    assert_eq!(p.get_end_edges(&input).len(), 0);
    assert_eq!(p.get_end_edges(&tokens(&["b"])).len(), 1);
}

#[test]
fn empty_input_still_takes_rounds() {
    let g = chain();
    let mut p = g.get_parser(SymbolSet::new()).unwrap();
    assert_eq!(p.parse(vec![]).unwrap(), Vec::<Vec<Rule>>::new());
    assert_eq!(items(&p), vec![(0, 0, 0, 0), (1, 0, 0, 0), (2, 0, 0, 0)]);
}
