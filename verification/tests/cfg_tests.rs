use lr1::context::{get_first, is_nullable, CfgContext};
use lr1::grammar::{Cfg, Production, Symbol};
use lr1::line::{split_line, symbol_line, SymbolError};
use lr1::order::{sorted_names, str_less};
use std::collections::HashSet;

fn strings(v: &[&str]) -> Vec<String> {
    v.iter().map(|s| s.to_string()).collect()
}

fn set(v: &[&str]) -> HashSet<String> {
    v.iter().map(|s| s.to_string()).collect()
}

fn as_set(v: Option<&Vec<String>>) -> Option<HashSet<String>> {
    v.map(|x| x.iter().cloned().collect())
}

fn nt(s: &str) -> Symbol {
    Symbol::NonTerminal(s.to_string())
}

fn t(s: &str) -> Symbol {
    Symbol::Terminal(s.to_string())
}

#[test]
fn new_cfg_context() {
    let start_symbol = "S".to_string();
    let nonterminals = strings(&["S", "E", "A", "B", "C"]);
    let terminals = strings(&["(", ")", "a", "b", "c"]);
    let productions = vec![
        Production::new("S".to_string(), vec![t("("), nt("E"), t(")")]),
        Production::new("E".to_string(), vec![nt("A"), nt("B"), nt("C")]),
        Production::new("A".to_string(), vec![t("a")]),
        Production::new("A".to_string(), vec![]),
        Production::new("B".to_string(), vec![t("b")]),
        Production::new("B".to_string(), vec![]),
        Production::new("C".to_string(), vec![t("c")]),
        Production::new("C".to_string(), vec![]),
    ];
    let cfg = Cfg::new(start_symbol, nonterminals, terminals, productions);
    let ctx = CfgContext::from(&cfg);

    assert_eq!(ctx.augmented_cfg.start_symbol, "S'");

    // Nullable
    assert_eq!(
        ctx.nullable.iter().cloned().collect::<HashSet<String>>(),
        set(&["A", "B", "C", "E"])
    );
    // First
    assert_eq!(as_set(ctx.first_set(&"S'".to_string())), Some(set(&["("])));
    assert_eq!(as_set(ctx.first_set(&"S".to_string())), Some(set(&["("])));
    assert_eq!(as_set(ctx.first_set(&"E".to_string())), Some(set(&["a", "b", "c"])));
    assert_eq!(as_set(ctx.first_set(&"A".to_string())), Some(set(&["a"])));
    assert_eq!(as_set(ctx.first_set(&"B".to_string())), Some(set(&["b"])));
    assert_eq!(as_set(ctx.first_set(&"C".to_string())), Some(set(&["c"])));
    // Follow
    assert_eq!(as_set(ctx.follow_set(&"S'".to_string())), None);
    assert_eq!(as_set(ctx.follow_set(&"S".to_string())), Some(set(&["$"])));
    assert_eq!(as_set(ctx.follow_set(&"E".to_string())), Some(set(&[")"])));
    assert_eq!(as_set(ctx.follow_set(&"A".to_string())), Some(set(&["b", "c", ")"])));
    assert_eq!(as_set(ctx.follow_set(&"B".to_string())), Some(set(&["c", ")"])));
    assert_eq!(as_set(ctx.follow_set(&"C".to_string())), Some(set(&[")"])));
}

#[test]
fn augmentation_skips_declared_names() {
    let cfg = Cfg::new(
        "S".to_string(),
        strings(&["S", "S'"]),
        strings(&["$", "$'", "x"]),
        vec![Production::new("S".to_string(), vec![t("x")])],
    );
    let a = cfg.augment_grammar();
    assert_eq!(a.start_symbol, "S''");
    assert_eq!(a.end_terminal, "$''");
    assert_eq!(a.nonterminals, strings(&["S", "S'", "S''"]));
    assert_eq!(a.terminals, strings(&["$", "$'", "x"]));
    assert_eq!(a.productions.len(), 2);
    assert_eq!(a.productions[1], Production::new("S''".to_string(), vec![nt("S"), t("$''")]));
}

#[test]
fn augmentation_is_the_same_twice() {
    let cfg = Cfg::new("S".to_string(), strings(&["S"]), strings(&["x"]), vec![]);
    let a = cfg.augment_grammar();
    let b = cfg.augment_grammar();
    assert_eq!(a.start_symbol, b.start_symbol);
    assert_eq!(a.end_terminal, b.end_terminal);
    assert_eq!(a.productions, b.productions);
    assert_eq!(a.start_symbol, "S'");
    assert_eq!(a.end_terminal, "$");
}

#[test]
fn nullable_sequences() {
    let nullable = strings(&["A", "B"]);
    assert!(is_nullable(&[], &nullable));
    assert!(is_nullable(&[nt("A"), nt("B")], &nullable));
    assert!(!is_nullable(&[nt("A"), nt("C")], &nullable));
    assert!(!is_nullable(&[nt("A"), t("A")], &nullable));
}

#[test]
fn first_of_sequences() {
    let nullable = strings(&["A"]);
    let first = vec![
        ("A".to_string(), strings(&["a"])),
        ("B".to_string(), strings(&["b", "c"])),
    ];
    let f = get_first(&[nt("A"), nt("B"), t("d")], &first, &nullable);
    assert_eq!(f.iter().cloned().collect::<HashSet<String>>(), set(&["a", "b", "c"]));
    let f = get_first(&[nt("A"), t("d"), t("e")], &first, &nullable);
    assert_eq!(f.iter().cloned().collect::<HashSet<String>>(), set(&["a", "d"]));
    let f = get_first(&[t("x"), nt("A")], &first, &nullable);
    assert_eq!(f, strings(&["x"]));
    let f = get_first(&[nt("C"), t("x")], &first, &nullable);
    assert!(f.is_empty());
    let f = get_first(&[], &first, &nullable);
    assert!(f.is_empty());
}

#[test]
fn production_line_is_parsed() {
    let nts = strings(&["A", "C"]);
    assert!(Production::is_production_line("A -> b C"));
    let p = Production::parse("A -> b C", &nts);
    assert_eq!(p, Production::new("A".to_string(), vec![t("b"), nt("C")]));
    let p = Production::parse("  A\t->   C  C\n", &nts);
    assert_eq!(p, Production::new("A".to_string(), vec![nt("C"), nt("C")]));
    let p = Production::parse("A ->", &nts);
    assert_eq!(p, Production::new("A".to_string(), vec![]));
}

#[test]
fn malformed_production_lines() {
    assert!(!Production::is_production_line(""));
    assert!(!Production::is_production_line("A"));
    assert!(!Production::is_production_line("A b c"));
    assert!(!Production::is_production_line("-> A"));
    assert!(!Production::is_production_line("A => b"));
}

#[test]
fn line_splitting_trims_unicode_space() {
    assert_eq!(split_line("\u{a0} a\u{a0}b  c \u{3000}"), strings(&["a\u{a0}b", "c"]));
    assert_eq!(split_line("x\u{b}y"), strings(&["x\u{b}y"]));
    assert_eq!(split_line("\u{b}x y\u{b}"), strings(&["x", "y"]));
    assert_eq!(split_line("   "), Vec::<String>::new());
}

#[test]
fn names_are_sorted_as_strings() {
    let names = strings(&["b", "a", "ab", "$", "E'", "E"]);
    let all = vec![true; names.len()];
    assert_eq!(sorted_names(&names, &all), strings(&["$", "E", "E'", "a", "ab", "b"]));
    let some = vec![true, false, true, false, true, false];
    assert_eq!(sorted_names(&names, &some), strings(&["E'", "ab", "b"]));
    assert!(str_less(&"a".to_string(), &"ab".to_string()));
    assert!(!str_less(&"ab".to_string(), &"a".to_string()));
    assert!(!str_less(&"a".to_string(), &"a".to_string()));
    assert!(str_less(&"".to_string(), &"a".to_string()));
}

#[test]
fn first_names_come_in_scan_order() {
    let nullable = strings(&["A"]);
    let first = vec![("A".to_string(), strings(&["a"]))];
    let f = get_first(&[nt("A"), t("b"), t("c")], &first, &nullable);
    assert_eq!(f, strings(&["a", "b"]));
}

#[test]
fn symbol_lines_are_checked() {
    let seen = strings(&["A"]);
    assert_eq!(symbol_line("  B \n", &seen), Ok("B".to_string()));
    assert_eq!(symbol_line(" \t ", &seen), Err(SymbolError::Empty));
    assert_eq!(symbol_line("B C", &seen), Err(SymbolError::ContainsSpace));
    assert_eq!(symbol_line(" A", &seen), Err(SymbolError::Duplicate("A".to_string())));
}
