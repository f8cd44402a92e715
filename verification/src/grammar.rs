//! Symbols, production rules and validated context-free grammars.

use crate::parser::{msg_privileged_undeclared, Parser};
use vstd::prelude::*;

verus! {

/// A grammar symbol: a tag and a name.
#[derive(Debug, Hash)]
pub enum Symbol {
    NonTerminal(String),
    Terminal(String),
}

/// Tells the builder functions which tag a symbol name gets.
pub enum SymbolType {
    NT,
    T,
}

/// The mathematical value of a [`Symbol`]: its tag and the characters of its name.
pub enum Sym {
    NonTerminal(Seq<char>),
    Terminal(Seq<char>),
}

impl View for Symbol {
    type V = Sym;

    open spec fn view(&self) -> Sym {
        match self {
            Symbol::NonTerminal(name) => Sym::NonTerminal(name@),
            Symbol::Terminal(name) => Sym::Terminal(name@),
        }
    }
}

impl Symbol {
    /// Whether the symbol carries the non-terminal tag.
    pub fn is_non_terminal(&self) -> (b: bool)
        ensures
            b == (self@ is NonTerminal),
    {
        match self {
            Symbol::NonTerminal(_) => true,
            Symbol::Terminal(_) => false,
        }
    }
}

impl PartialEq for Symbol {
    fn eq(&self, other: &Self) -> (r: bool) {
        match self {
            Symbol::NonTerminal(x) => match other {
                Symbol::NonTerminal(y) => x.eq(y),
                Symbol::Terminal(_) => false,
            },
            Symbol::Terminal(x) => match other {
                Symbol::NonTerminal(_) => false,
                Symbol::Terminal(y) => x.eq(y),
            },
        }
    }
}

impl Eq for Symbol {}

impl vstd::std_specs::cmp::PartialEqSpecImpl for Symbol {
    open spec fn obeys_eq_spec() -> bool {
        true
    }

    open spec fn eq_spec(&self, other: &Symbol) -> bool {
        self@ == other@
    }
}

impl Clone for Symbol {
    fn clone(&self) -> (r: Self)
        ensures
            r@ == self@,
    {
        match self {
            Symbol::NonTerminal(x) => Symbol::NonTerminal(x.clone()),
            Symbol::Terminal(x) => Symbol::Terminal(x.clone()),
        }
    }
}

/// A production rule: the symbol on the left and the symbols it derives.
pub type Rule = (Symbol, Vec<Symbol>);

/// The mathematical value of a [`Rule`].
pub struct Production {
    pub lhs: Sym,
    pub rhs: Seq<Sym>,
}

/// The values of a sequence of symbols, in order.
pub open spec fn symbols_view(s: Seq<Symbol>) -> Seq<Sym> {
    Seq::new(s.len(), |i: int| s[i]@)
}

/// The production that a rule stands for.
pub open spec fn production(r: Rule) -> Production {
    Production { lhs: r.0@, rhs: symbols_view(r.1@) }
}

/// The productions of a sequence of rules, in order.
pub open spec fn productions(rs: Seq<Rule>) -> Seq<Production> {
    Seq::new(rs.len(), |i: int| production(rs[i]))
}

/// Compares two symbol sequences by value.
pub fn symbols_eq(a: &Vec<Symbol>, b: &Vec<Symbol>) -> (r: bool)
    ensures
        r == (symbols_view(a@) == symbols_view(b@)),
{
    if a.len() != b.len() {
        proof {
            assert(symbols_view(a@).len() != symbols_view(b@).len());
        }
        return false;
    }
    let mut i: usize = 0;
    while i < a.len()
        invariant
            a.len() == b.len(),
            i <= a.len(),
            forall|j: int| 0 <= j < i ==> a@[j]@ == b@[j]@,
        decreases a.len() - i,
    {
        if a[i] != b[i] {
            proof {
                assert(symbols_view(a@)[i as int] == a@[i as int]@);
                assert(symbols_view(b@)[i as int] == b@[i as int]@);
            }
            return false;
        }
        i += 1;
    }
    proof {
        assert(symbols_view(a@) =~= symbols_view(b@));
    }
    true
}

/// Compares two rules by value.
pub fn rule_eq(a: &Rule, b: &Rule) -> (r: bool)
    ensures
        r == (production(*a) == production(*b)),
{
    a.0 == b.0 && symbols_eq(&a.1, &b.1)
}

/// Copies a symbol sequence.
pub fn clone_symbols(v: &Vec<Symbol>) -> (r: Vec<Symbol>)
    ensures
        symbols_view(r@) == symbols_view(v@),
{
    let mut out: Vec<Symbol> = Vec::new();
    let mut i: usize = 0;
    while i < v.len()
        invariant
            i <= v.len(),
            out.len() == i,
            forall|j: int| 0 <= j < i ==> out@[j]@ == v@[j]@,
        decreases v.len() - i,
    {
        out.push(v[i].clone());
        i += 1;
    }
    proof {
        assert(symbols_view(out@) =~= symbols_view(v@));
    }
    out
}

/// Copies a rule.
pub fn clone_rule(r: &Rule) -> (c: Rule)
    ensures
        production(c) == production(*r),
{
    (r.0.clone(), clone_symbols(&r.1))
}

/// A set of symbols, kept in the order in which they were first inserted.
#[derive(Debug)]
pub struct SymbolSet {
    symbols: Vec<Symbol>,
}

impl View for SymbolSet {
    type V = Set<Sym>;

    closed spec fn view(&self) -> Set<Sym> {
        symbols_view(self.symbols@).to_set()
    }
}

impl SymbolSet {
    /// No symbol is stored twice.
    #[verifier::type_invariant]
    pub closed spec fn wf(&self) -> bool {
        symbols_view(self.symbols@).no_duplicates()
    }

    /// The empty set.
    pub fn new() -> (s: SymbolSet)
        ensures
            s@ == Set::<Sym>::empty(),
    {
        let s = SymbolSet { symbols: Vec::new() };
        proof {
            assert(s@ =~= Set::<Sym>::empty());
        }
        s
    }

    /// Whether the symbol is a member.
    pub fn contains(&self, symbol: &Symbol) -> (b: bool)
        ensures
            b == self@.contains(symbol@),
    {
        let mut i: usize = 0;
        while i < self.symbols.len()
            invariant
                i <= self.symbols.len(),
                forall|j: int| 0 <= j < i ==> self.symbols@[j]@ != symbol@,
            decreases self.symbols.len() - i,
        {
            if self.symbols[i] == *symbol {
                proof {
                    assert(symbols_view(self.symbols@)[i as int] == symbol@);
                }
                return true;
            }
            i += 1;
        }
        proof {
            assert forall|j: int| 0 <= j < symbols_view(self.symbols@).len() implies symbols_view(
                self.symbols@,
            )[j] != symbol@ by {
                assert(symbols_view(self.symbols@)[j] == self.symbols@[j]@);
            }
        }
        false
    }

    /// Adds the symbol unless it is a member already; tells whether it was added.
    pub fn insert(&mut self, symbol: Symbol) -> (added: bool)
        ensures
            final(self)@ == old(self)@.insert(symbol@),
            added == !old(self)@.contains(symbol@),
    {
        proof {
            use_type_invariant(&*self);
        }
        if self.contains(&symbol) {
            proof {
                assert(self@ =~= self@.insert(symbol@));
            }
            return false;
        }
        let ghost before = symbols_view(self.symbols@);
        // The symbols are taken out and put back whole: the invariant holds throughout.
        let mut taken = SymbolSet { symbols: Vec::new() };
        core::mem::swap(self, &mut taken);
        let SymbolSet { symbols: mut symbols } = taken;
        symbols.push(symbol);
        proof {
            let after = symbols_view(symbols@);
            assert(after =~= before.push(symbol@));
            assert forall|x: Sym| after.to_set().contains(x) == before.to_set().insert(
                symbol@,
            ).contains(x) by {
                if before.contains(x) {
                    let j = choose|j: int| 0 <= j < before.len() && before[j] == x;
                    assert(after[j] == x);
                }
                if x == symbol@ {
                    assert(after[before.len() as int] == x);
                }
            }
            assert(after.to_set() =~= before.to_set().insert(symbol@));
        }
        *self = SymbolSet { symbols };
        true
    }

    /// Whether every member of this set is a member of `other`.
    pub fn is_subset_of(&self, other: &SymbolSet) -> (b: bool)
        ensures
            b == self@.subset_of(other@),
    {
        let mut i: usize = 0;
        while i < self.symbols.len()
            invariant
                i <= self.symbols.len(),
                forall|j: int| 0 <= j < i ==> other@.contains(self.symbols@[j]@),
            decreases self.symbols.len() - i,
        {
            if !other.contains(&self.symbols[i]) {
                proof {
                    assert(symbols_view(self.symbols@)[i as int] == self.symbols@[i as int]@);
                    assert(self@.contains(self.symbols@[i as int]@));
                }
                return false;
            }
            i += 1;
        }
        proof {
            assert forall|x: Sym| self@.contains(x) implies other@.contains(x) by {
                let j = choose|j: int|
                    0 <= j < symbols_view(self.symbols@).len() && symbols_view(self.symbols@)[j]
                        == x;
                assert(symbols_view(self.symbols@)[j] == self.symbols@[j]@);
            }
        }
        true
    }
}

/// A set of rules, kept in the order in which they were first inserted.
#[derive(Debug)]
pub struct RuleSet {
    rules: Vec<Rule>,
}

impl View for RuleSet {
    type V = Seq<Production>;

    closed spec fn view(&self) -> Seq<Production> {
        productions(self.rules@)
    }
}

impl RuleSet {
    /// No rule is stored twice.
    #[verifier::type_invariant]
    pub open spec fn wf(&self) -> bool {
        self@.no_duplicates()
    }

    /// The empty set.
    pub fn new() -> (s: RuleSet)
        ensures
            s@ == Seq::<Production>::empty(),
    {
        let s = RuleSet { rules: Vec::new() };
        proof {
            assert(s@ =~= Seq::<Production>::empty());
        }
        s
    }

    /// The number of rules.
    pub fn len(&self) -> (n: usize)
        ensures
            n == self@.len(),
    {
        self.rules.len()
    }

    /// The rule at a position.
    pub fn get(&self, i: usize) -> (r: &Rule)
        requires
            i < self@.len(),
        ensures
            production(*r) == self@[i as int],
    {
        &self.rules[i]
    }

    /// Whether the rule is a member.
    pub fn contains(&self, rule: &Rule) -> (b: bool)
        ensures
            b == self@.contains(production(*rule)),
    {
        let mut i: usize = 0;
        while i < self.rules.len()
            invariant
                i <= self.rules.len(),
                forall|j: int| 0 <= j < i ==> self@[j] != production(*rule),
            decreases self.rules.len() - i,
        {
            if rule_eq(&self.rules[i], rule) {
                proof {
                    assert(self@[i as int] == production(*rule));
                }
                return true;
            }
            i += 1;
        }
        false
    }

    /// Adds the rule at the end unless it is a member already; tells whether it was added.
    pub fn insert(&mut self, rule: Rule) -> (added: bool)
        ensures
            added == !old(self)@.contains(production(rule)),
            final(self)@ == if added {
                old(self)@.push(production(rule))
            } else {
                old(self)@
            },
    {
        proof {
            use_type_invariant(&*self);
        }
        if self.contains(&rule) {
            return false;
        }
        let ghost before = self@;
        // The rules are taken out and put back whole: the invariant holds throughout.
        let mut taken = RuleSet { rules: Vec::new() };
        proof {
            assert(taken@ =~= Seq::<Production>::empty());
        }
        core::mem::swap(self, &mut taken);
        let RuleSet { rules: mut rules } = taken;
        rules.push(rule);
        proof {
            assert(productions(rules@) =~= before.push(production(rule)));
        }
        *self = RuleSet { rules };
        true
    }
}

/// The symbol that a name and a tag stand for.
pub open spec fn named_symbol(name: Seq<char>, tag: SymbolType) -> Sym {
    match tag {
        SymbolType::NT => Sym::NonTerminal(name),
        SymbolType::T => Sym::Terminal(name),
    }
}

/// The symbols that a sequence of tagged names stands for.
pub open spec fn named_symbols(names: Seq<(&str, SymbolType)>) -> Seq<Sym> {
    Seq::new(names.len(), |i: int| named_symbol(names[i].0@, names[i].1))
}

/// The productions that a sequence of rule descriptions stands for, repetitions included.
pub open spec fn named_productions(rules: Seq<(&str, Vec<(&str, SymbolType)>)>) -> Seq<
    Production,
> {
    Seq::new(
        rules.len(),
        |i: int| Production { lhs: Sym::NonTerminal(rules[i].0@), rhs: named_symbols(rules[i].1@) },
    )
}

/// The sequence without repetitions: of equal entries only the first stays.
pub open spec fn distinct(s: Seq<Production>) -> Seq<Production>
    decreases s.len(),
{
    if s.len() == 0 {
        s
    } else if distinct(s.drop_last()).contains(s.last()) {
        distinct(s.drop_last())
    } else {
        distinct(s.drop_last()).push(s.last())
    }
}

/// Makes the set of the non-terminals with the given names.
pub fn create_non_terminal_set(non_terminals: Vec<&str>) -> (set: SymbolSet)
    ensures
        forall|x: Sym|
            set@.contains(x) <==> exists|i: int|
                0 <= i < non_terminals@.len() && x == Sym::NonTerminal(
                    (#[trigger] non_terminals@[i])@,
                ),
{
    let mut set = SymbolSet::new();
    let mut i: usize = 0;
    while i < non_terminals.len()
        invariant
            i <= non_terminals.len(),
            forall|x: Sym|
                set@.contains(x) <==> exists|j: int|
                    0 <= j < i && x == Sym::NonTerminal((#[trigger] non_terminals@[j])@),
        decreases non_terminals.len() - i,
    {
        let name: &str = non_terminals[i];
        set.insert(Symbol::NonTerminal(name.to_string()));
        i += 1;
    }
    set
}

/// Makes the set of the terminals with the given names.
pub fn create_terminal_set(terminals: Vec<&str>) -> (set: SymbolSet)
    ensures
        forall|x: Sym|
            set@.contains(x) <==> exists|i: int|
                0 <= i < terminals@.len() && x == Sym::Terminal((#[trigger] terminals@[i])@),
{
    let mut set = SymbolSet::new();
    let mut i: usize = 0;
    while i < terminals.len()
        invariant
            i <= terminals.len(),
            forall|x: Sym|
                set@.contains(x) <==> exists|j: int|
                    0 <= j < i && x == Sym::Terminal((#[trigger] terminals@[j])@),
        decreases terminals.len() - i,
    {
        let name: &str = terminals[i];
        set.insert(Symbol::Terminal(name.to_string()));
        i += 1;
    }
    set
}

/// Makes a rule set from descriptions: the name of the non-terminal on the left, and the
/// tagged names on the right. `S -> NP VP` is `("S", vec![("NP", NT), ("VP", NT)])`.
pub fn create_rule_set(rules: Vec<(&str, Vec<(&str, SymbolType)>)>) -> (set: RuleSet)
    ensures
        set@ == distinct(named_productions(rules@)),
{
    let mut set = RuleSet::new();
    let mut i: usize = 0;
    while i < rules.len()
        invariant
            i <= rules.len(),
            set@ == distinct(named_productions(rules@).subrange(0, i as int)),
        decreases rules.len() - i,
    {
        let mut right_side: Vec<Symbol> = Vec::new();
        let mut j: usize = 0;
        while j < rules[i].1.len()
            invariant
                i < rules.len(),
                j <= rules@[i as int].1.len(),
                right_side.len() == j,
                forall|k: int|
                    0 <= k < j ==> right_side@[k]@ == named_symbol(
                        rules@[i as int].1@[k].0@,
                        rules@[i as int].1@[k].1,
                    ),
            decreases rules@[i as int].1.len() - j,
        {
            let name: &str = rules[i].1[j].0;
            match rules[i].1[j].1 {
                SymbolType::NT => right_side.push(Symbol::NonTerminal(name.to_string())),
                SymbolType::T => right_side.push(Symbol::Terminal(name.to_string())),
            }
            j += 1;
        }
        let head: &str = rules[i].0;
        let rule: Rule = (Symbol::NonTerminal(head.to_string()), right_side);
        proof {
            let all = named_productions(rules@);
            assert(production(rule).rhs =~= all[i as int].rhs);
            assert(production(rule) == all[i as int]);
            assert(all.subrange(0, i + 1).drop_last() =~= all.subrange(0, i as int));
            assert(all.subrange(0, i + 1).last() == all[i as int]);
        }
        set.insert(rule);
        i += 1;
    }
    proof {
        assert(named_productions(rules@).subrange(0, i as int) =~= named_productions(rules@));
    }
    set
}

/// The mathematical value of a [`Grammar`].
pub struct GrammarModel {
    pub non_terminals: Set<Sym>,
    pub terminals: Set<Sym>,
    pub start: Sym,
    pub rules: Seq<Production>,
}

impl GrammarModel {
    /// The symbol is a declared non-terminal or a declared terminal.
    pub open spec fn declared(self, x: Sym) -> bool {
        self.non_terminals.contains(x) || self.terminals.contains(x)
    }

    /// The left side is a declared non-terminal and every symbol on the right is declared.
    pub open spec fn rule_ok(self, p: Production) -> bool {
        &&& self.non_terminals.contains(p.lhs)
        &&& forall|i: int| 0 <= i < p.rhs.len() ==> self.declared(#[trigger] p.rhs[i])
    }

    /// What every grammar satisfies: the start symbol is a declared non-terminal, every
    /// rule is in order, and no rule is stored twice.
    pub open spec fn valid(self) -> bool {
        &&& self.non_terminals.contains(self.start)
        &&& forall|k: int| 0 <= k < self.rules.len() ==> self.rule_ok(#[trigger] self.rules[k])
        &&& self.rules.no_duplicates()
    }

    /// The production `lhs -> terminal`.
    pub open spec fn unary(lhs: Sym, terminal: Sym) -> Production {
        Production { lhs, rhs: seq![terminal] }
    }
}

/// The message for a start symbol that is no declared non-terminal.
pub open spec fn msg_start_undeclared() -> Seq<char> {
    "Starting symbol not in the set of non-terminals"@
}

/// The message for a rule whose left side is no declared non-terminal.
pub open spec fn msg_left_undeclared() -> Seq<char> {
    "Left side of rule is not a non-terminal"@
}

/// The message for a rule with an undeclared symbol on its right side.
pub open spec fn msg_right_undeclared() -> Seq<char> {
    "Symbol on right side of rule is neither a terminal, nor a non-terminal"@
}

/// The message for a grammar without a rule for its start symbol.
pub open spec fn msg_no_start_rule() -> Seq<char> {
    "No rule reducing the starting symbol"@
}

/// A validated context-free grammar. It does not change once made.
#[derive(Debug)]
pub struct Grammar {
    non_terminals: SymbolSet,
    terminals: SymbolSet,
    start: Symbol,
    rules: RuleSet,
}

impl View for Grammar {
    type V = GrammarModel;

    closed spec fn view(&self) -> GrammarModel {
        GrammarModel {
            non_terminals: self.non_terminals@,
            terminals: self.terminals@,
            start: self.start@,
            rules: self.rules@,
        }
    }
}

impl Grammar {
    /// Every grammar is valid.
    #[verifier::type_invariant]
    pub open spec fn inv(&self) -> bool {
        self@.valid()
    }

    /// Validates the parts and makes the grammar. The rules are checked in their order;
    /// the first one that is not in order decides the message.
    pub fn new(non_terminals: SymbolSet, terminals: SymbolSet, start: Symbol, rules: RuleSet) -> (r:
        Result<Grammar, String>)
        ensures
            ({
                let m = GrammarModel {
                    non_terminals: non_terminals@,
                    terminals: terminals@,
                    start: start@,
                    rules: rules@,
                };
                match r {
                    Ok(g) => m.valid() && g@ == m,
                    Err(e) => if !m.non_terminals.contains(m.start) {
                        e@ == msg_start_undeclared()
                    } else {
                        exists|k: int|
                            {
                                &&& 0 <= k < m.rules.len()
                                &&& !m.rule_ok(#[trigger] m.rules[k])
                                &&& forall|j: int| 0 <= j < k ==> m.rule_ok(#[trigger] m.rules[j])
                                &&& e@ == if !m.non_terminals.contains(m.rules[k].lhs) {
                                    msg_left_undeclared()
                                } else {
                                    msg_right_undeclared()
                                }
                            }
                    },
                }
            }),
    {
        let ghost m = GrammarModel {
            non_terminals: non_terminals@,
            terminals: terminals@,
            start: start@,
            rules: rules@,
        };
        proof {
            use_type_invariant(&rules);
        }
        if !non_terminals.contains(&start) {
            return Err("Starting symbol not in the set of non-terminals".to_string());
        }
        let mut k: usize = 0;
        while k < rules.len()
            invariant
                k <= rules@.len(),
                m.non_terminals == non_terminals@,
                m.terminals == terminals@,
                m.rules == rules@,
                m.start == start@,
                m.non_terminals.contains(m.start),
                m.rules.no_duplicates(),
                forall|j: int| 0 <= j < k ==> m.rule_ok(#[trigger] m.rules[j]),
            decreases rules@.len() - k,
        {
            let rule = rules.get(k);
            if !non_terminals.contains(&rule.0) {
                proof {
                    assert(!m.rule_ok(m.rules[k as int]));
                }
                return Err("Left side of rule is not a non-terminal".to_string());
            }
            let mut i: usize = 0;
            while i < rule.1.len()
                invariant
                    i <= rule.1.len(),
                    m.non_terminals == non_terminals@,
                    m.terminals == terminals@,
                    production(*rule) == m.rules[k as int],
                    0 <= k < m.rules.len(),
                    m.rules == rules@,
                    m.start == start@,
                    m.non_terminals.contains(m.start),
                    m.non_terminals.contains(m.rules[k as int].lhs),
                    forall|j: int| 0 <= j < k ==> m.rule_ok(#[trigger] m.rules[j]),
                    forall|j: int| 0 <= j < i ==> m.declared(#[trigger] m.rules[k as int].rhs[j]),
                decreases rule.1.len() - i,
            {
                if !non_terminals.contains(&rule.1[i]) && !terminals.contains(&rule.1[i]) {
                    proof {
                        assert(m.rules[k as int].rhs[i as int] == rule.1@[i as int]@);
                        assert(!m.declared(m.rules[k as int].rhs[i as int]));
                        assert(!m.rule_ok(m.rules[k as int]));
                    }
                    return Err(
                        "Symbol on right side of rule is neither a terminal, nor a non-terminal"
                            .to_string(),
                    );
                }
                proof {
                    assert(m.rules[k as int].rhs[i as int] == rule.1@[i as int]@);
                }
                i += 1;
            }
            k += 1;
        }
        Ok(Grammar { non_terminals, terminals, start, rules })
    }

    /// The number of rules.
    pub fn rule_count(&self) -> (n: usize)
        ensures
            n == self@.rules.len(),
    {
        self.rules.len()
    }

    /// The rule at a position, in the order in which the rules were given.
    pub fn rule(&self, i: usize) -> (r: &Rule)
        requires
            i < self@.rules.len(),
        ensures
            production(*r) == self@.rules[i as int],
    {
        self.rules.get(i)
    }

    /// The start symbol.
    pub fn start(&self) -> (s: &Symbol)
        ensures
            s@ == self@.start,
    {
        &self.start
    }

    /// The position of the first rule whose left side is the start symbol.
    pub fn starting_rule_index(&self) -> (r: Option<usize>)
        ensures
            match r {
                Some(k) => {
                    &&& k < self@.rules.len()
                    &&& self@.rules[k as int].lhs == self@.start
                    &&& forall|j: int| 0 <= j < k ==> (#[trigger] self@.rules[j]).lhs != self@.start
                },
                None => forall|j: int|
                    0 <= j < self@.rules.len() ==> (#[trigger] self@.rules[j]).lhs != self@.start,
            },
    {
        let mut k: usize = 0;
        while k < self.rules.len()
            invariant
                k <= self@.rules.len(),
                forall|j: int| 0 <= j < k ==> (#[trigger] self@.rules[j]).lhs != self@.start,
            decreases self@.rules.len() - k,
        {
            if self.rules.get(k).0 == self.start {
                return Some(k);
            }
            k += 1;
        }
        None
    }

    /// Makes a parser for this grammar that leaves the privileged symbols to scanning.
    pub fn get_parser(&self, privileged: SymbolSet) -> (r: Result<Parser<'_>, String>)
        ensures
            match r {
                Ok(p) => {
                    &&& p.wf()
                    &&& p.grammar() == self@
                    &&& p.privileged() == privileged@
                    &&& p.chart().len() == 1
                },
                Err(e) => if !privileged@.subset_of(self@.non_terminals) {
                    e@ == msg_privileged_undeclared()
                } else {
                    &&& e@ == msg_no_start_rule()
                    &&& forall|j: int|
                        0 <= j < self@.rules.len() ==> (#[trigger] self@.rules[j]).lhs
                            != self@.start
                },
            },
    {
        Parser::new(self, privileged)
    }

    /// The first rule whose left side is the start symbol.
    pub fn get_starting_rule(&self) -> (r: Result<Rule, String>)
        ensures
            match r {
                Ok(rule) => exists|k: int|
                    {
                        &&& 0 <= k < self@.rules.len()
                        &&& production(rule) == #[trigger] self@.rules[k]
                        &&& self@.rules[k].lhs == self@.start
                        &&& forall|j: int|
                            0 <= j < k ==> (#[trigger] self@.rules[j]).lhs != self@.start
                    },
                Err(e) => {
                    &&& e@ == msg_no_start_rule()
                    &&& forall|j: int|
                        0 <= j < self@.rules.len() ==> (#[trigger] self@.rules[j]).lhs
                            != self@.start
                },
            },
    {
        match self.starting_rule_index() {
            Some(k) => Ok(clone_rule(self.rules.get(k))),
            None => Err("No rule reducing the starting symbol".to_string()),
        }
    }

    /// All rules whose left side is the symbol, in the order in which the rules were given.
    pub fn get_rules(&self, symbol: Symbol) -> (found: Vec<Rule>)
        ensures
            productions(found@) == self@.rules.filter(|p: Production| p.lhs == symbol@),
    {
        let mut found: Vec<Rule> = Vec::new();
        let ghost wanted = |p: Production| p.lhs == symbol@;
        let mut k: usize = 0;
        while k < self.rules.len()
            invariant
                k <= self@.rules.len(),
                wanted == |p: Production| p.lhs == symbol@,
                productions(found@) == self@.rules.subrange(0, k as int).filter(wanted),
            decreases self@.rules.len() - k,
        {
            let rule = self.rules.get(k);
            proof {
                let upto = self@.rules.subrange(0, k + 1);
                assert(upto.drop_last() =~= self@.rules.subrange(0, k as int));
                assert(upto.last() == self@.rules[k as int]);
                reveal(Seq::filter);
            }
            if rule.0 == symbol {
                let ghost before = productions(found@);
                found.push(clone_rule(rule));
                proof {
                    assert(productions(found@) =~= before.push(self@.rules[k as int]));
                }
            }
            k += 1;
        }
        proof {
            assert(self@.rules.subrange(0, k as int) =~= self@.rules);
        }
        found
    }

    /// Whether the symbol is a declared terminal.
    pub fn in_terminals(&self, symbol: &Symbol) -> (b: bool)
        ensures
            b == self@.terminals.contains(symbol@),
    {
        self.terminals.contains(symbol)
    }

    /// Whether the symbol is a declared non-terminal.
    pub fn in_non_terminals(&self, symbol: &Symbol) -> (b: bool)
        ensures
            b == self@.non_terminals.contains(symbol@),
    {
        self.non_terminals.contains(symbol)
    }

    /// Whether every member of the set is a declared non-terminal.
    pub fn contains_non_terminals(&self, symbols: &SymbolSet) -> (b: bool)
        ensures
            b == symbols@.subset_of(self@.non_terminals),
    {
        symbols.is_subset_of(&self.non_terminals)
    }

    /// The position of the rule `non_term -> terminal`, if the grammar has it.
    pub fn terminal_rule_index(&self, non_term: &Symbol, terminal: &Symbol) -> (r: Option<usize>)
        ensures
            match r {
                Some(k) => k < self@.rules.len() && self@.rules[k as int] == GrammarModel::unary(
                    non_term@,
                    terminal@,
                ),
                None => !self@.rules.contains(GrammarModel::unary(non_term@, terminal@)),
            },
    {
        let ghost wanted = GrammarModel::unary(non_term@, terminal@);
        let mut k: usize = 0;
        while k < self.rules.len()
            invariant
                k <= self@.rules.len(),
                wanted == GrammarModel::unary(non_term@, terminal@),
                forall|j: int| 0 <= j < k ==> self@.rules[j] != wanted,
            decreases self@.rules.len() - k,
        {
            let rule = self.rules.get(k);
            if rule.0 == *non_term && rule.1.len() == 1 {
                if rule.1[0] == *terminal {
                    proof {
                        assert(self@.rules[k as int].rhs =~= wanted.rhs);
                    }
                    return Some(k);
                }
            }
            proof {
                if self@.rules[k as int] == wanted {
                    assert(wanted.rhs.len() == 1);
                    assert(self@.rules[k as int].rhs[0] == rule.1@[0]@);
                    assert(wanted.rhs[0] == terminal@);
                }
            }
            k += 1;
        }
        None
    }

    /// The rule `non_term -> terminal`, if the grammar has it.
    pub fn get_terminal_rule(&self, non_term: &Symbol, terminal: &Symbol) -> (r: Option<Rule>)
        ensures
            match r {
                Some(rule) => production(rule) == GrammarModel::unary(non_term@, terminal@)
                    && self@.rules.contains(production(rule)),
                None => !self@.rules.contains(GrammarModel::unary(non_term@, terminal@)),
            },
    {
        match self.terminal_rule_index(non_term, terminal) {
            Some(k) => Some(clone_rule(self.rules.get(k))),
            None => None,
        }
    }
}

} // verus!
