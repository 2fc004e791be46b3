use compiler_create::lexica::analysis::LexicalAnalysis;
use compiler_create::lexica::regex;
use compiler_create::lexica::regex::Regex;
use compiler_create::lexica::tokens::TokenUses;
use compiler_create::syntax::analysis::{DerivationLog, Reduction, SyntaxAnalysis, SyntaxError};
use compiler_create::syntax::first::check_rules;
use compiler_create::syntax::first::First;
use compiler_create::syntax::rules::{Derivation, Rule};
use compiler_create::syntax::utils::{IsTerminal, Symbol};

fn t(id: u32) -> Symbol {
    Symbol { id, terminal: true }
}

fn n(id: u32) -> Symbol {
    Symbol { id, terminal: false }
}

const PLUS: u32 = 1;
const ID: u32 = 2;
const WS: u32 = 3;
const EXPR: u32 = 10;
const EXPR_P: u32 = 11;
const TERM: u32 = 12;
const START: u32 = 13;

fn expr_rules() -> Vec<Rule<Symbol>> {
    vec![
        Rule::new(n(EXPR), vec![Derivation::Normal(vec![n(TERM), n(EXPR_P)])]),
        Rule::new(
            n(EXPR_P),
            vec![
                Derivation::Normal(vec![t(PLUS), n(TERM), n(EXPR_P)]),
                Derivation::Empty,
            ],
        ),
        Rule::new(n(TERM), vec![Derivation::Normal(vec![t(ID)])]),
    ]
}

fn first_set_of(table: &Vec<(Symbol, Vec<First<Symbol>>)>, var: Symbol) -> Vec<First<Symbol>> {
    for (k, v) in table {
        if *k == var {
            return v.clone();
        }
    }
    panic!("no entry for the nonterminal");
}

#[test]
fn first_table_matches_the_textbook() {
    let rules = expr_rules();
    let table = First::calculate(&rules).unwrap();

    let f_expr_p = first_set_of(&table, n(EXPR_P));
    assert_eq!(f_expr_p.len(), 2);
    assert!(f_expr_p.contains(&First::Terminal(t(PLUS))));
    assert!(f_expr_p.contains(&First::Empty));

    let f_expr = first_set_of(&table, n(EXPR));
    assert_eq!(f_expr, vec![First::Terminal(t(ID))]);

    let f_term = first_set_of(&table, n(TERM));
    assert_eq!(f_term, vec![First::Terminal(t(ID))]);
}

#[test]
fn first_from_and_firts_empty() {
    let rules = expr_rules();
    let table = First::calculate(&rules).unwrap();
    assert!(First::first_from(&table, n(EXPR_P), t(PLUS)));
    assert!(!First::first_from(&table, n(EXPR_P), t(ID)));
    assert!(First::first_from(&table, n(EXPR), t(ID)));
    assert!(First::first_from(&table, t(ID), t(ID)));
    assert!(!First::first_from(&table, t(ID), t(PLUS)));
    assert!(First::firts_empty(&table, n(EXPR_P)));
    assert!(!First::firts_empty(&table, n(EXPR)));
    assert!(!First::firts_empty(&table, t(ID)));
}

#[test]
fn rule_accessors() {
    let r = Rule::new(n(EXPR), vec![Derivation::Empty]);
    assert!(!r.from().is_terminal());
    assert_eq!(r.derivations().len(), 1);
    assert!(matches!(r.derivations()[0], Derivation::Empty));
}

fn scenario_patterns() -> Vec<(Symbol, TokenUses, Regex)> {
    let lower = || regex::from_set(b'a', b'z');
    vec![
        (t(WS), TokenUses::IgnoreThis, regex::from_byte(b' ')),
        (
            t(ID),
            TokenUses::GetLexeme,
            regex::concat(vec![lower(), regex::repeat(lower())]),
        ),
        (t(PLUS), TokenUses::Default, regex::from_byte(b'+')),
    ]
}

#[test]
fn scenario_tokens_then_parse() {
    // patterns WS (ignore) and ID (capture); grammar S -> ID S | empty
    let mut la =
        LexicalAnalysis::new(&scenario_patterns(), b"ab cd".to_vec(), 512).unwrap();
    let t1 = la.next_token().unwrap().unwrap();
    assert_eq!(t1.t_type, t(ID));
    assert_eq!(t1.t_name, Some(b"ab".to_vec()));
    let t2 = la.next_token().unwrap().unwrap();
    assert_eq!(t2.t_type, t(ID));
    assert_eq!(t2.t_name, Some(b"cd".to_vec()));
    assert_eq!(la.next_token().unwrap(), None);

    let rules = vec![Rule::new(
        n(START),
        vec![
            Derivation::Normal(vec![t(ID), n(START)]),
            Derivation::Empty,
        ],
    )];
    let mut sa = SyntaxAnalysis::new(rules, DerivationLog::new()).unwrap();
    let mut la =
        LexicalAnalysis::new(&scenario_patterns(), b"ab cd".to_vec(), 512).unwrap();
    sa.init(n(START), &mut la).unwrap();
    // two completed expansions of S -> ID S were reported
    assert_eq!(sa.callback.seen.len(), 2);
    for (from, d) in &sa.callback.seen {
        assert_eq!(*from, n(START));
        match d {
            Derivation::Normal(vars) => assert_eq!(vars.len(), 2),
            Derivation::Empty => panic!("the empty alternative is not reported"),
        }
    }
}

#[test]
fn parse_rejects_terminal_start_symbol() {
    let rules = vec![Rule::new(n(START), vec![Derivation::Empty])];
    let mut sa = SyntaxAnalysis::new(rules, DerivationLog::new()).unwrap();
    let mut la = LexicalAnalysis::new(&scenario_patterns(), b"".to_vec(), 512).unwrap();
    assert_eq!(sa.init(t(ID), &mut la), Err(SyntaxError::DeriveTerminal));
}

#[test]
fn parse_reports_leftover_tokens() {
    let rules = vec![Rule::new(n(START), vec![Derivation::Normal(vec![t(ID)])])];
    let mut sa = SyntaxAnalysis::new(rules, DerivationLog::new()).unwrap();
    let mut la =
        LexicalAnalysis::new(&scenario_patterns(), b"ab cd".to_vec(), 512).unwrap();
    assert_eq!(sa.init(n(START), &mut la), Err(SyntaxError::LeftoverToken));
}

#[test]
fn parse_reports_mismatch_at_end_of_input() {
    let rules = vec![Rule::new(
        n(START),
        vec![Derivation::Normal(vec![t(ID), t(PLUS)])],
    )];
    let mut sa = SyntaxAnalysis::new(rules, DerivationLog::new()).unwrap();
    let mut la = LexicalAnalysis::new(&scenario_patterns(), b"ab".to_vec(), 512).unwrap();
    match sa.init(n(START), &mut la) {
        Err(SyntaxError::ExpectMismatch {
            expected, found, ..
        }) => {
            assert_eq!(expected, t(PLUS));
            assert_eq!(found, None);
        }
        other => panic!("wrong outcome: {:?}", other),
    }
}

#[test]
fn parse_reports_no_alternative() {
    let rules = vec![Rule::new(n(START), vec![Derivation::Normal(vec![t(ID)])])];
    let mut sa = SyntaxAnalysis::new(rules, DerivationLog::new()).unwrap();
    let mut la = LexicalAnalysis::new(&scenario_patterns(), b"+".to_vec(), 512).unwrap();
    match sa.init(n(START), &mut la) {
        Err(SyntaxError::NoAlternative {
            nonterminal,
            found,
            expected,
            ..
        }) => {
            assert_eq!(nonterminal, n(START));
            assert_eq!(found, Some(t(PLUS)));
            // the report carries the recorded FIRST set of the nonterminal
            assert_eq!(expected, vec![First::Terminal(t(ID))]);
        }
        other => panic!("wrong outcome: {:?}", other),
    }
}

#[test]
fn parse_full_expression_grammar() {
    let mut rules = expr_rules();
    rules.push(Rule::new(n(START), vec![Derivation::Normal(vec![n(EXPR)])]));
    let mut sa = SyntaxAnalysis::new(rules, DerivationLog::new()).unwrap();
    let mut la =
        LexicalAnalysis::new(&scenario_patterns(), b"a + b + c".to_vec(), 512).unwrap();
    sa.init(n(START), &mut la).unwrap();
    assert!(sa.callback.seen.len() >= 5);
}

#[test]
fn symbol_classification() {
    assert!(t(ID).is_terminal());
    assert!(!n(EXPR).is_terminal());
    assert!(t(ID).sym_eq(t(ID)));
    assert!(!t(ID).sym_eq(t(PLUS)));
    assert!(!t(ID).sym_eq(n(ID)));
}

#[test]
fn grammar_checker_decides_well_formedness() {
    assert!(check_rules(&expr_rules()));
    // a body nonterminal without a rule of its own is refused
    let broken = vec![Rule::new(
        n(START),
        vec![Derivation::Normal(vec![t(ID), n(EXPR)])],
    )];
    assert!(!check_rules(&broken));
    let empty: Vec<Rule<Symbol>> = Vec::new();
    assert!(check_rules(&empty));
}

#[test]
fn derivation_log_records_pairs() {
    let mut log: DerivationLog<Symbol> = DerivationLog::new();
    let d = Derivation::Normal(vec![t(ID)]);
    assert!(log.reduce(n(START), &d).is_ok());
    assert_eq!(log.seen.len(), 1);
    assert_eq!(log.seen[0].0, n(START));
    assert!(matches!(&log.seen[0].1, Derivation::Normal(v) if v.len() == 1));
}
