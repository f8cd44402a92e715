use chart_parser::grammar::{
    clone_rule, create_non_terminal_set, create_rule_set, create_terminal_set, rule_eq,
    symbols_eq, Grammar, Rule, RuleSet, Symbol, SymbolSet, SymbolType,
};

fn nt(name: &str) -> Symbol {
    Symbol::NonTerminal(name.to_string())
}

fn t(name: &str) -> Symbol {
    Symbol::Terminal(name.to_string())
}

fn small_grammar() -> Grammar {
    let non_terminals = create_non_terminal_set(vec!["S", "A", "B"]);
    let terminals = create_terminal_set(vec!["a", "b"]);
    let rules = create_rule_set(vec![
        ("A", vec![("a", SymbolType::T)]),
        ("S", vec![("A", SymbolType::NT), ("B", SymbolType::NT)]),
        ("B", vec![("b", SymbolType::T)]),
        ("S", vec![("A", SymbolType::NT)]),
        ("B", vec![("a", SymbolType::T), ("b", SymbolType::T)]),
    ]);
    Grammar::new(non_terminals, terminals, nt("S"), rules).unwrap()
}

#[test]
fn symbols_compare_by_tag_and_name() {
    assert_eq!(nt("S"), nt("S"));
    assert_ne!(nt("S"), t("S"));
    assert_ne!(nt("S"), nt("T"));
    assert_eq!(t("a"), t("a"));
    assert_ne!(t("a"), nt("a"));
    assert_eq!(nt("S").clone(), nt("S"));
    assert!(nt("S").is_non_terminal());
    assert!(!t("S").is_non_terminal());
}

#[test]
fn symbol_sequences_compare_by_value() {
    assert!(symbols_eq(&vec![nt("A"), t("b")], &vec![nt("A"), t("b")]));
    assert!(!symbols_eq(&vec![nt("A"), t("b")], &vec![nt("A")]));
    assert!(!symbols_eq(&vec![nt("A"), t("b")], &vec![nt("A"), nt("b")]));
    assert!(symbols_eq(&vec![], &vec![]));
}

#[test]
fn rules_compare_and_copy_by_value() {
    let rule: Rule = (nt("S"), vec![nt("A"), t("b")]);
    let copy = clone_rule(&rule);
    assert_eq!(copy, rule);
    assert!(rule_eq(&rule, &copy));
    assert!(!rule_eq(&rule, &(nt("S"), vec![nt("A")])));
    assert!(!rule_eq(&rule, &(nt("T"), vec![nt("A"), t("b")])));
}

#[test]
fn symbol_set_holds_each_symbol_once() {
    let mut set = SymbolSet::new();
    assert!(!set.contains(&nt("S")));
    assert!(set.insert(nt("S")));
    assert!(!set.insert(nt("S")));
    assert!(set.insert(t("S")));
    assert!(set.contains(&nt("S")));
    assert!(set.contains(&t("S")));
    assert!(!set.contains(&nt("T")));
}

#[test]
fn symbol_set_subset() {
    let all = create_non_terminal_set(vec!["S", "A", "B"]);
    let some = create_non_terminal_set(vec!["B", "S"]);
    let other = create_non_terminal_set(vec!["B", "C"]);
    assert!(some.is_subset_of(&all));
    assert!(!all.is_subset_of(&some));
    assert!(!other.is_subset_of(&all));
    assert!(SymbolSet::new().is_subset_of(&some));
}

#[test]
fn non_terminal_set_has_the_named_non_terminals() {
    let set = create_non_terminal_set(vec!["S", "NP", "S"]);
    assert!(set.contains(&nt("S")));
    assert!(set.contains(&nt("NP")));
    assert!(!set.contains(&t("S")));
    assert!(!set.contains(&nt("VP")));
}

#[test]
fn terminal_set_has_the_named_terminals() {
    let set = create_terminal_set(vec!["fish", "can"]);
    assert!(set.contains(&t("fish")));
    assert!(set.contains(&t("can")));
    assert!(!set.contains(&nt("fish")));
    assert!(!set.contains(&t("they")));
}

#[test]
fn rule_set_keeps_first_occurrences_in_order() {
    let set = create_rule_set(vec![
        ("S", vec![("A", SymbolType::NT), ("b", SymbolType::T)]),
        ("A", vec![("a", SymbolType::T)]),
        ("S", vec![("A", SymbolType::NT), ("b", SymbolType::T)]),
        ("A", vec![]),
    ]);
    assert_eq!(set.len(), 3);
    assert_eq!(*set.get(0), (nt("S"), vec![nt("A"), t("b")]));
    assert_eq!(*set.get(1), (nt("A"), vec![t("a")]));
    assert_eq!(*set.get(2), (nt("A"), vec![]));
    assert!(set.contains(&(nt("A"), vec![t("a")])));
    assert!(!set.contains(&(nt("A"), vec![nt("a")])));
}

#[test]
fn rule_set_insert_refuses_a_repetition() {
    let mut set = RuleSet::new();
    assert_eq!(set.len(), 0);
    assert!(set.insert((nt("S"), vec![nt("A")])));
    assert!(!set.insert((nt("S"), vec![nt("A")])));
    assert!(set.insert((nt("S"), vec![t("A")])));
    assert_eq!(set.len(), 2);
}

#[test]
fn grammar_new_accepts_a_valid_grammar() {
    let g = small_grammar();
    assert_eq!(g.rule_count(), 5);
    assert_eq!(*g.start(), nt("S"));
    assert_eq!(*g.rule(0), (nt("A"), vec![t("a")]));
    assert_eq!(*g.rule(4), (nt("B"), vec![t("a"), t("b")]));
}

#[test]
fn grammar_new_rejects_undeclared_start() {
    let r = Grammar::new(
        create_non_terminal_set(vec!["A"]),
        create_terminal_set(vec!["a"]),
        nt("S"),
        create_rule_set(vec![("A", vec![("a", SymbolType::T)])]),
    );
    assert_eq!(r.err().unwrap(), "Starting symbol not in the set of non-terminals");
}

#[test]
fn grammar_new_rejects_start_with_terminal_tag() {
    let r = Grammar::new(
        create_non_terminal_set(vec!["S"]),
        create_terminal_set(vec!["S"]),
        t("S"),
        RuleSet::new(),
    );
    assert_eq!(r.err().unwrap(), "Starting symbol not in the set of non-terminals");
}

#[test]
fn grammar_new_rejects_undeclared_left_side() {
    let r = Grammar::new(
        create_non_terminal_set(vec!["S"]),
        create_terminal_set(vec!["a"]),
        nt("S"),
        create_rule_set(vec![
            ("S", vec![("a", SymbolType::T)]),
            ("A", vec![("a", SymbolType::T)]),
        ]),
    );
    assert_eq!(r.err().unwrap(), "Left side of rule is not a non-terminal");
}

#[test]
fn grammar_new_rejects_undeclared_right_side() {
    let r = Grammar::new(
        create_non_terminal_set(vec!["S"]),
        create_terminal_set(vec!["a"]),
        nt("S"),
        create_rule_set(vec![("S", vec![("a", SymbolType::T), ("b", SymbolType::T)])]),
    );
    assert_eq!(
        r.err().unwrap(),
        "Symbol on right side of rule is neither a terminal, nor a non-terminal"
    );
}

#[test]
fn grammar_new_reports_the_first_rule_out_of_order() {
    let r = Grammar::new(
        create_non_terminal_set(vec!["S"]),
        create_terminal_set(vec!["a"]),
        nt("S"),
        create_rule_set(vec![
            ("S", vec![("b", SymbolType::T)]),
            ("A", vec![("a", SymbolType::T)]),
        ]),
    );
    assert_eq!(
        r.err().unwrap(),
        "Symbol on right side of rule is neither a terminal, nor a non-terminal"
    );
}

#[test]
fn starting_rule_is_the_first_rule_for_the_start_symbol() {
    let g = small_grammar();
    assert_eq!(g.starting_rule_index(), Some(1));
    assert_eq!(g.get_starting_rule().unwrap(), (nt("S"), vec![nt("A"), nt("B")]));
}

#[test]
fn starting_rule_missing() {
    let g = Grammar::new(
        create_non_terminal_set(vec!["S", "A"]),
        create_terminal_set(vec!["a"]),
        nt("S"),
        create_rule_set(vec![("A", vec![("a", SymbolType::T)])]),
    )
    .unwrap();
    assert_eq!(g.starting_rule_index(), None);
    assert_eq!(g.get_starting_rule().err().unwrap(), "No rule reducing the starting symbol");
}

#[test]
fn rules_for_a_symbol_come_in_order() {
    let g = small_grammar();
    assert_eq!(
        g.get_rules(nt("S")),
        vec![(nt("S"), vec![nt("A"), nt("B")]), (nt("S"), vec![nt("A")])]
    );
    assert_eq!(
        g.get_rules(nt("B")),
        vec![(nt("B"), vec![t("b")]), (nt("B"), vec![t("a"), t("b")])]
    );
    assert_eq!(g.get_rules(nt("C")), Vec::<Rule>::new());
    assert_eq!(g.get_rules(t("S")), Vec::<Rule>::new());
}

#[test]
fn membership_in_terminals_and_non_terminals() {
    let g = small_grammar();
    assert!(g.in_terminals(&t("a")));
    assert!(!g.in_terminals(&nt("a")));
    assert!(!g.in_terminals(&t("c")));
    assert!(g.in_non_terminals(&nt("S")));
    assert!(!g.in_non_terminals(&t("S")));
    assert!(!g.in_non_terminals(&nt("C")));
    assert!(g.contains_non_terminals(&create_non_terminal_set(vec!["A", "B"])));
    assert!(!g.contains_non_terminals(&create_non_terminal_set(vec!["A", "C"])));
}

#[test]
fn terminal_rule_lookup() {
    let g = small_grammar();
    assert_eq!(g.get_terminal_rule(&nt("A"), &t("a")), Some((nt("A"), vec![t("a")])));
    assert_eq!(g.terminal_rule_index(&nt("A"), &t("a")), Some(0));
    assert_eq!(g.terminal_rule_index(&nt("B"), &t("b")), Some(2));
    assert_eq!(g.get_terminal_rule(&nt("B"), &t("a")), None);
    assert_eq!(g.get_terminal_rule(&nt("A"), &t("b")), None);
    assert_eq!(g.get_terminal_rule(&nt("S"), &nt("A")), Some((nt("S"), vec![nt("A")])));
    assert_eq!(g.terminal_rule_index(&nt("C"), &t("a")), None);
}

#[test]
fn get_parser_rejects_undeclared_privileged_symbol() {
    let g = small_grammar();
    let r = g.get_parser(create_non_terminal_set(vec!["A", "C"]));
    assert_eq!(
        r.err().unwrap(),
        "Privileged non-terminal, not in the set of non-terminals"
    );
}

#[test]
fn get_parser_needs_a_starting_rule() {
    let g = Grammar::new(
        create_non_terminal_set(vec!["S", "A"]),
        create_terminal_set(vec!["a"]),
        nt("S"),
        create_rule_set(vec![("A", vec![("a", SymbolType::T)])]),
    )
    .unwrap();
    let r = g.get_parser(SymbolSet::new());
    assert_eq!(r.err().unwrap(), "No rule reducing the starting symbol");
}

#[test]
fn get_parser_starts_from_the_seed_edge() {
    let g = small_grammar();
    let p = g.get_parser(create_non_terminal_set(vec!["A"])).unwrap();
    assert_eq!(p.chart_len(), 1);
    let seed = p.edge(0);
    assert_eq!(seed.d_rule.rule, 1);
    assert_eq!(seed.d_rule.dot_pos, 0);
    assert_eq!(seed.span, (0, 0));
    assert!(seed.history.is_empty());
}
