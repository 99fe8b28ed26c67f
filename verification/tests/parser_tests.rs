use lr1::driver::ParseError;
use lr1::grammar::{Cfg, Production, Symbol};
use lr1::parser::{ConflictKind, Lr1Error, Lr1Parser};
use lr1::tree::ParseTree;

fn nt(s: &str) -> Symbol {
    Symbol::NonTerminal(s.to_string())
}

fn t(s: &str) -> Symbol {
    Symbol::Terminal(s.to_string())
}

fn strings(v: &[&str]) -> Vec<String> {
    v.iter().map(|s| s.to_string()).collect()
}

fn leaf(s: &str) -> ParseTree {
    ParseTree { value: t(s), children: vec![] }
}

fn node(s: &str, children: Vec<ParseTree>) -> ParseTree {
    ParseTree { value: nt(s), children }
}

/*
 S -> Identifier
 S -> MethodCall
 Identifier -> id
 Identifier -> S . id
 MethodCall -> Identifier ( )
*/
fn get_test_cfg() -> Cfg {
    let start_symbol = "S".to_string();
    let nonterminals = strings(&["S", "Identifier", "MethodCall"]);
    let terminals = strings(&["id", ".", "(", ")"]);
    let productions = vec![
        Production::new("S".to_string(), vec![nt("Identifier")]),
        Production::new("S".to_string(), vec![nt("MethodCall")]),
        Production::new("Identifier".to_string(), vec![t("id")]),
        Production::new("Identifier".to_string(), vec![nt("S"), t("."), t("id")]),
        Production::new("MethodCall".to_string(), vec![nt("Identifier"), t("("), t(")")]),
    ];
    Cfg::new(start_symbol, nonterminals, terminals, productions)
}

fn build(cfg: &Cfg) -> Lr1Parser {
    match Lr1Parser::new(cfg) {
        Ok(p) => p,
        Err(_) => panic!("the grammar is expected to be LR(1)"),
    }
}

fn leaves(t: &ParseTree, out: &mut Vec<String>) {
    match &t.value {
        Symbol::Terminal(s) => out.push(s.clone()),
        Symbol::NonTerminal(_) => t.children.iter().for_each(|c| leaves(c, out)),
    }
}

fn parse_tree(parser: &Lr1Parser, input: &[&str]) -> ParseTree {
    parser.parse(input).unwrap().tree
}

#[test]
#[should_panic]
fn input_not_in_language() {
    let cfg = get_test_cfg();
    let parser = build(&cfg);
    let input = ["id", "(", ")", "(", ")"];
    parser.parse(&input).unwrap();
}

#[test]
fn test_parse_simple_identifier() {
    let cfg = get_test_cfg();
    let parser = build(&cfg);
    let input = ["id"];
    let tree = parse_tree(&parser, &input);
    assert_eq!(
        tree,
        ParseTree {
            value: Symbol::NonTerminal("S".to_string()),
            children: vec![ParseTree {
                value: Symbol::NonTerminal("Identifier".to_string()),
                children: vec![ParseTree {
                    value: Symbol::Terminal("id".to_string()),
                    children: vec![]
                }]
            }]
        }
    )
}

#[test]
fn test_parse_qualified_identifier() {
    let cfg = get_test_cfg();
    let parser = build(&cfg);
    let input = ["id", ".", "id"];
    let tree = parse_tree(&parser, &input);
    assert_eq!(
        tree,
        ParseTree {
            value: Symbol::NonTerminal("S".to_string()),
            children: vec![ParseTree {
                value: Symbol::NonTerminal("Identifier".to_string()),
                children: vec![
                    ParseTree {
                        value: Symbol::NonTerminal("S".to_string()),
                        children: vec![ParseTree {
                            value: Symbol::NonTerminal("Identifier".to_string()),
                            children: vec![ParseTree {
                                value: Symbol::Terminal("id".to_string()),
                                children: vec![]
                            }]
                        }]
                    },
                    ParseTree {
                        value: Symbol::Terminal(".".to_string()),
                        children: vec![]
                    },
                    ParseTree {
                        value: Symbol::Terminal("id".to_string()),
                        children: vec![]
                    }
                ]
            }]
        }
    )
}

#[test]
fn test_parse_simple_method_call() {
    let cfg = get_test_cfg();
    let parser = build(&cfg);
    let input = ["id", "(", ")"];
    let tree = parse_tree(&parser, &input);
    assert_eq!(
        tree,
        ParseTree {
            value: Symbol::NonTerminal("S".to_string()),
            children: vec![ParseTree {
                value: Symbol::NonTerminal("MethodCall".to_string()),
                children: vec![
                    ParseTree {
                        value: Symbol::NonTerminal("Identifier".to_string()),
                        children: vec![ParseTree {
                            value: Symbol::Terminal("id".to_string()),
                            children: vec![]
                        }]
                    },
                    ParseTree {
                        value: Symbol::Terminal("(".to_string()),
                        children: vec![]
                    },
                    ParseTree {
                        value: Symbol::Terminal(")".to_string()),
                        children: vec![]
                    },
                ]
            }]
        }
    )
}

#[test]
fn test_parse_method_call() {
    let cfg = get_test_cfg();
    let parser = build(&cfg);
    let input = ["id", "(", ")", ".", "id", "(", ")"];
    let tree = parse_tree(&parser, &input);

    // parse tree for "id ( )"
    let simple_method_call = ParseTree {
        value: Symbol::NonTerminal("S".to_string()),
        children: vec![ParseTree {
            value: Symbol::NonTerminal("MethodCall".to_string()),
            children: vec![
                ParseTree {
                    value: Symbol::NonTerminal("Identifier".to_string()),
                    children: vec![ParseTree {
                        value: Symbol::Terminal("id".to_string()),
                        children: vec![],
                    }],
                },
                ParseTree {
                    value: Symbol::Terminal("(".to_string()),
                    children: vec![],
                },
                ParseTree {
                    value: Symbol::Terminal(")".to_string()),
                    children: vec![],
                },
            ],
        }],
    };

    assert_eq!(
        tree,
        ParseTree {
            value: Symbol::NonTerminal("S".to_string()),
            children: vec![ParseTree {
                value: Symbol::NonTerminal("MethodCall".to_string()),
                children: vec![
                    ParseTree {
                        value: Symbol::NonTerminal("Identifier".to_string()),
                        children: vec![
                            simple_method_call,
                            ParseTree {
                                value: Symbol::Terminal(".".to_string()),
                                children: vec![]
                            },
                            ParseTree {
                                value: Symbol::Terminal("id".to_string()),
                                children: vec![]
                            }
                        ]
                    },
                    ParseTree {
                        value: Symbol::Terminal("(".to_string()),
                        children: vec![]
                    },
                    ParseTree {
                        value: Symbol::Terminal(")".to_string()),
                        children: vec![]
                    },
                ]
            }]
        }
    )
}

#[test]
fn derivation_lists_reductions_in_order() {
    let cfg = get_test_cfg();
    let parser = build(&cfg);
    let out = parser.parse(&["id", ".", "id"]).unwrap();
    // Identifier -> id, S -> Identifier, Identifier -> S . id, S -> Identifier
    assert_eq!(out.derivation, vec![2, 0, 3, 0]);
}

#[test]
fn rejected_input_names_state_and_symbol() {
    let cfg = get_test_cfg();
    let parser = build(&cfg);
    let err: ParseError = match parser.parse(&["id", "(", ")", "(", ")"]) {
        Ok(_) => panic!("the input is not in the language"),
        Err(e) => e,
    };
    assert_eq!(err.symbol, t("("));
    let err = match parser.parse(&["id", "id"]) {
        Ok(_) => panic!("the input is not in the language"),
        Err(e) => e,
    };
    assert_eq!(err.symbol, t("id"));
    let err = match parser.parse(&["nope"]) {
        Ok(_) => panic!("the input is not in the language"),
        Err(e) => e,
    };
    assert_eq!(err.symbol, t("nope"));
    assert_eq!(err.state, 0);
    let err = match parser.parse(&[]) {
        Ok(_) => panic!("the input is not in the language"),
        Err(e) => e,
    };
    assert_eq!(err.symbol, t("$"));
}

#[test]
fn tree_leaves_are_the_input() {
    let cfg = get_test_cfg();
    let parser = build(&cfg);
    let tree = parse_tree(&parser, &["id", "(", ")", ".", "id"]);
    let mut out = Vec::new();
    leaves(&tree, &mut out);
    assert_eq!(out, strings(&["id", "(", ")", ".", "id"]));
}

#[test]
fn first_state_is_the_closure_of_the_start_item() {
    let cfg = get_test_cfg();
    let parser = build(&cfg);
    let texts: Vec<String> = parser.dfa.states[0].iter().map(|it| parser.format_lr_item(it)).collect();
    assert!(texts.contains(&"S' -> • S $ : [ $ ]".to_string()));
    assert!(texts.contains(&"Identifier -> • id : [ $, (, . ]".to_string()));
    assert_eq!(texts.len(), 6);
}

#[test]
fn item_text_places_the_dot() {
    let cfg = get_test_cfg();
    let parser = build(&cfg);
    let mut item = parser.start.clone();
    assert_eq!(parser.format_lr_item(&item), "S' -> • S $ : [ $ ]");
    item.dot = 1;
    assert_eq!(parser.format_lr_item(&item), "S' -> S • $ : [ $ ]");
    item.dot = 2;
    assert_eq!(parser.format_lr_item(&item), "S' -> S $ • : [ $ ]");
    item.lookahead = vec![false; item.lookahead.len()];
    assert_eq!(parser.format_lr_item(&item), "S' -> S $ • : [  ]");
}

#[test]
fn shift_reduce_conflict_is_reported() {
    // E -> E + E | id is ambiguous
    let cfg = Cfg::new(
        "E".to_string(),
        strings(&["E"]),
        strings(&["+", "id"]),
        vec![
            Production::new("E".to_string(), vec![nt("E"), t("+"), nt("E")]),
            Production::new("E".to_string(), vec![t("id")]),
        ],
    );
    match Lr1Parser::new(&cfg) {
        Err(Lr1Error::Conflict(parser, c)) => {
            assert_eq!(c.kind, ConflictKind::ShiftReduce);
            assert_eq!(parser.cfgctx.symbols.names[c.lookahead], "+");
            let items = parser.conflict_items(&c);
            assert_eq!(items.len(), 2);
            let texts: Vec<String> = items
                .iter()
                .map(|m| parser.format_lr_item(&parser.dfa.states[c.state_id][*m]))
                .collect();
            assert!(texts.iter().any(|s| s.starts_with("E -> E + E • ")));
            assert!(texts.iter().any(|s| s.starts_with("E -> E • + E ")));
        }
        _ => panic!("expected a shift-reduce conflict"),
    }
}

#[test]
fn reduce_reduce_conflict_is_reported() {
    let cfg = Cfg::new(
        "S".to_string(),
        strings(&["S", "A", "B"]),
        strings(&["x"]),
        vec![
            Production::new("S".to_string(), vec![nt("A")]),
            Production::new("S".to_string(), vec![nt("B")]),
            Production::new("A".to_string(), vec![t("x")]),
            Production::new("B".to_string(), vec![t("x")]),
        ],
    );
    match Lr1Parser::new(&cfg) {
        Err(Lr1Error::Conflict(parser, c)) => {
            assert_eq!(c.kind, ConflictKind::ReduceReduce);
            assert_eq!(parser.cfgctx.symbols.names[c.lookahead], "$");
            let items = parser.conflict_items(&c);
            let texts: Vec<String> = items
                .iter()
                .map(|m| parser.format_lr_item(&parser.dfa.states[c.state_id][*m]))
                .collect();
            assert_eq!(texts.len(), 2);
            assert!(texts.contains(&"A -> x • : [ $ ]".to_string()));
            assert!(texts.contains(&"B -> x • : [ $ ]".to_string()));
        }
        _ => panic!("expected a reduce-reduce conflict"),
    }
}

#[test]
fn second_start_production_is_refused() {
    // `S'` is not declared, so the augmented start symbol is `S'` and has two productions.
    let cfg = Cfg::new(
        "S".to_string(),
        strings(&["S"]),
        strings(&["x"]),
        vec![
            Production::new("S".to_string(), vec![t("x")]),
            Production::new("S'".to_string(), vec![t("x")]),
        ],
    );
    assert!(matches!(Lr1Parser::new(&cfg), Err(Lr1Error::StartProductions)));
}

#[test]
fn nullable_productions_parse() {
    // S -> A b, A -> a | (empty)
    let cfg = Cfg::new(
        "S".to_string(),
        strings(&["S", "A"]),
        strings(&["a", "b"]),
        vec![
            Production::new("S".to_string(), vec![nt("A"), t("b")]),
            Production::new("A".to_string(), vec![t("a")]),
            Production::new("A".to_string(), vec![]),
        ],
    );
    let parser = build(&cfg);
    assert_eq!(
        parse_tree(&parser, &["a", "b"]),
        node("S", vec![node("A", vec![leaf("a")]), leaf("b")])
    );
    // A reduction by the empty production happens on the empty stack too.
    assert_eq!(
        parse_tree(&parser, &["b"]),
        node("S", vec![node("A", vec![]), leaf("b")])
    );
}

#[test]
fn transitions_follow_the_automaton() {
    let cfg = get_test_cfg();
    let parser = build(&cfg);
    let id = parser.cfgctx.symbols.names.iter().position(|s| s == "id").unwrap();
    let x = lr1::analysis::Sym { terminal: true, id };
    let next = parser.transition(0, x).unwrap();
    assert!(next > 0);
    let texts: Vec<String> = parser.dfa.states[next].iter().map(|it| parser.format_lr_item(it)).collect();
    assert_eq!(texts, vec!["Identifier -> id • : [ $, (, . ]".to_string()]);
    let rparen = parser.cfgctx.symbols.names.iter().position(|s| s == ")").unwrap();
    assert!(parser.transition(0, lr1::analysis::Sym { terminal: true, id: rparen }).is_none());
}

#[test]
fn state_items_are_listed_in_order() {
    let cfg = get_test_cfg();
    let parser = build(&cfg);
    let order = parser.sorted_items(0);
    let texts: Vec<String> = order.iter().map(|m| parser.format_lr_item(&parser.dfa.states[0][*m])).collect();
    assert_eq!(
        texts,
        vec![
            "S -> • Identifier : [ $, . ]".to_string(),
            "S -> • MethodCall : [ $, . ]".to_string(),
            "Identifier -> • id : [ $, (, . ]".to_string(),
            "Identifier -> • S . id : [ $, (, . ]".to_string(),
            "MethodCall -> • Identifier ( ) : [ $, . ]".to_string(),
            "S' -> • S $ : [ $ ]".to_string(),
        ]
    );
}

/// E -> E + E' | E', E' -> T, T -> T * T' | T', T' -> F, F -> ( E ) | id
fn expression_cfg() -> Cfg {
    Cfg::new(
        "E".to_string(),
        strings(&["E", "E'", "T", "T'", "F"]),
        strings(&["+", "*", "(", ")", "id"]),
        vec![
            Production::new("E".to_string(), vec![nt("E"), t("+"), nt("E'")]),
            Production::new("E".to_string(), vec![nt("E'")]),
            Production::new("E'".to_string(), vec![nt("T")]),
            Production::new("T".to_string(), vec![nt("T"), t("*"), nt("T'")]),
            Production::new("T".to_string(), vec![nt("T'")]),
            Production::new("T'".to_string(), vec![nt("F")]),
            Production::new("F".to_string(), vec![t("("), nt("E"), t(")")]),
            Production::new("F".to_string(), vec![t("id")]),
        ],
    )
}

#[test]
fn expression_grammar_automaton() {
    let cfg = expression_cfg();
    let parser = build(&cfg);
    assert_eq!(parser.dfa.states.len(), 27);
    let texts: Vec<String> = parser
        .sorted_items(0)
        .iter()
        .map(|m| parser.format_lr_item(&parser.dfa.states[0][*m]))
        .collect();
    assert_eq!(
        texts,
        strings(&[
            "E -> • E + E' : [ $, + ]",
            "E -> • E' : [ $, + ]",
            "E' -> • T : [ $, + ]",
            "T -> • T * T' : [ $, *, + ]",
            "T -> • T' : [ $, *, + ]",
            "T' -> • F : [ $, *, + ]",
            "F -> • ( E ) : [ $, *, + ]",
            "F -> • id : [ $, *, + ]",
            "S' -> • E $ : [ $ ]",
        ])
    );
}

#[test]
fn expression_rightmost_derivation() {
    let cfg = expression_cfg();
    let parser = build(&cfg);
    let input: Vec<&str> = "( id + id + id ) * ( ( id * ( id + id ) ) ) + id".split_whitespace().collect();
    let out = parser.parse(&input).unwrap();
    let applied: Vec<String> = out
        .derivation
        .iter()
        .rev()
        .map(|p| {
            let production = &parser.cfgctx.augmented_cfg.productions[*p];
            format!("Apply {} -> {:?}", production.nonterminal, production.expansion)
        })
        .collect();
    let expected = vec![
        r#"Apply E -> [NonTerminal("E"), Terminal("+"), NonTerminal("E'")]"#,
        r#"Apply E' -> [NonTerminal("T")]"#,
        r#"Apply T -> [NonTerminal("T'")]"#,
        r#"Apply T' -> [NonTerminal("F")]"#,
        r#"Apply F -> [Terminal("id")]"#,
        r#"Apply E -> [NonTerminal("E'")]"#,
        r#"Apply E' -> [NonTerminal("T")]"#,
        r#"Apply T -> [NonTerminal("T"), Terminal("*"), NonTerminal("T'")]"#,
        r#"Apply T' -> [NonTerminal("F")]"#,
        r#"Apply F -> [Terminal("("), NonTerminal("E"), Terminal(")")]"#,
        r#"Apply E -> [NonTerminal("E'")]"#,
        r#"Apply E' -> [NonTerminal("T")]"#,
        r#"Apply T -> [NonTerminal("T'")]"#,
        r#"Apply T' -> [NonTerminal("F")]"#,
        r#"Apply F -> [Terminal("("), NonTerminal("E"), Terminal(")")]"#,
        r#"Apply E -> [NonTerminal("E'")]"#,
        r#"Apply E' -> [NonTerminal("T")]"#,
        r#"Apply T -> [NonTerminal("T"), Terminal("*"), NonTerminal("T'")]"#,
        r#"Apply T' -> [NonTerminal("F")]"#,
        r#"Apply F -> [Terminal("("), NonTerminal("E"), Terminal(")")]"#,
        r#"Apply E -> [NonTerminal("E"), Terminal("+"), NonTerminal("E'")]"#,
        r#"Apply E' -> [NonTerminal("T")]"#,
        r#"Apply T -> [NonTerminal("T'")]"#,
        r#"Apply T' -> [NonTerminal("F")]"#,
        r#"Apply F -> [Terminal("id")]"#,
        r#"Apply E -> [NonTerminal("E'")]"#,
        r#"Apply E' -> [NonTerminal("T")]"#,
        r#"Apply T -> [NonTerminal("T'")]"#,
        r#"Apply T' -> [NonTerminal("F")]"#,
        r#"Apply F -> [Terminal("id")]"#,
        r#"Apply T -> [NonTerminal("T'")]"#,
        r#"Apply T' -> [NonTerminal("F")]"#,
        r#"Apply F -> [Terminal("id")]"#,
        r#"Apply T -> [NonTerminal("T'")]"#,
        r#"Apply T' -> [NonTerminal("F")]"#,
        r#"Apply F -> [Terminal("("), NonTerminal("E"), Terminal(")")]"#,
        r#"Apply E -> [NonTerminal("E"), Terminal("+"), NonTerminal("E'")]"#,
        r#"Apply E' -> [NonTerminal("T")]"#,
        r#"Apply T -> [NonTerminal("T'")]"#,
        r#"Apply T' -> [NonTerminal("F")]"#,
        r#"Apply F -> [Terminal("id")]"#,
        r#"Apply E -> [NonTerminal("E"), Terminal("+"), NonTerminal("E'")]"#,
        r#"Apply E' -> [NonTerminal("T")]"#,
        r#"Apply T -> [NonTerminal("T'")]"#,
        r#"Apply T' -> [NonTerminal("F")]"#,
        r#"Apply F -> [Terminal("id")]"#,
        r#"Apply E -> [NonTerminal("E'")]"#,
        r#"Apply E' -> [NonTerminal("T")]"#,
        r#"Apply T -> [NonTerminal("T'")]"#,
        r#"Apply T' -> [NonTerminal("F")]"#,
        r#"Apply F -> [Terminal("id")]"#,
    ];
    assert_eq!(applied, expected);
}

#[test]
fn expression_automaton_states() {
    let cfg = expression_cfg();
    let parser = build(&cfg);
    let expected: Vec<Vec<&str>> = vec![
        vec!["E -> • E + E' : [ $, + ]", "E -> • E' : [ $, + ]", "E' -> • T : [ $, + ]", "T -> • T * T' : [ $, *, + ]", "T -> • T' : [ $, *, + ]", "T' -> • F : [ $, *, + ]", "F -> • ( E ) : [ $, *, + ]", "F -> • id : [ $, *, + ]", "S' -> • E $ : [ $ ]"],
        vec!["E' -> T • : [ $, + ]", "T -> T • * T' : [ $, *, + ]"],
        vec!["T -> T' • : [ $, *, + ]"],
        vec!["E -> E • + E' : [ $, + ]", "S' -> E • $ : [ $ ]"],
        vec!["T' -> F • : [ $, *, + ]"],
        vec!["F -> id • : [ $, *, + ]"],
        vec!["E -> • E + E' : [ ), + ]", "E -> • E' : [ ), + ]", "E' -> • T : [ ), + ]", "T -> • T * T' : [ ), *, + ]", "T -> • T' : [ ), *, + ]", "T' -> • F : [ ), *, + ]", "F -> • ( E ) : [ ), *, + ]", "F -> ( • E ) : [ $, *, + ]", "F -> • id : [ ), *, + ]"],
        vec!["E -> E' • : [ $, + ]"],
        vec!["T -> T * • T' : [ $, *, + ]", "T' -> • F : [ $, *, + ]", "F -> • ( E ) : [ $, *, + ]", "F -> • id : [ $, *, + ]"],
        vec!["E -> E + • E' : [ $, + ]", "E' -> • T : [ $, + ]", "T -> • T * T' : [ $, *, + ]", "T -> • T' : [ $, *, + ]", "T' -> • F : [ $, *, + ]", "F -> • ( E ) : [ $, *, + ]", "F -> • id : [ $, *, + ]"],
        vec!["S' -> E $ • : [ $ ]"],
        vec!["E' -> T • : [ ), + ]", "T -> T • * T' : [ ), *, + ]"],
        vec!["T' -> F • : [ ), *, + ]"],
        vec!["T -> T' • : [ ), *, + ]"],
        vec!["E -> E • + E' : [ ), + ]", "F -> ( E • ) : [ $, *, + ]"],
        vec!["E -> E' • : [ ), + ]"],
        vec!["E -> • E + E' : [ ), + ]", "E -> • E' : [ ), + ]", "E' -> • T : [ ), + ]", "T -> • T * T' : [ ), *, + ]", "T -> • T' : [ ), *, + ]", "T' -> • F : [ ), *, + ]", "F -> • ( E ) : [ ), *, + ]", "F -> ( • E ) : [ ), *, + ]", "F -> • id : [ ), *, + ]"],
        vec!["F -> id • : [ ), *, + ]"],
        vec!["T -> T * T' • : [ $, *, + ]"],
        vec!["E -> E + E' • : [ $, + ]"],
        vec!["T -> T * • T' : [ ), *, + ]", "T' -> • F : [ ), *, + ]", "F -> • ( E ) : [ ), *, + ]", "F -> • id : [ ), *, + ]"],
        vec!["F -> ( E ) • : [ $, *, + ]"],
        vec!["E -> E + • E' : [ ), + ]", "E' -> • T : [ ), + ]", "T -> • T * T' : [ ), *, + ]", "T -> • T' : [ ), *, + ]", "T' -> • F : [ ), *, + ]", "F -> • ( E ) : [ ), *, + ]", "F -> • id : [ ), *, + ]"],
        vec!["E -> E • + E' : [ ), + ]", "F -> ( E • ) : [ ), *, + ]"],
        vec!["T -> T * T' • : [ ), *, + ]"],
        vec!["E -> E + E' • : [ ), + ]"],
        vec!["F -> ( E ) • : [ ), *, + ]"],
    ];
    let mut expected: Vec<Vec<String>> = expected.iter().map(|st| strings(st)).collect();
    let mut listed: Vec<Vec<String>> = (0..parser.dfa.states.len())
        .map(|i| {
            parser
                .sorted_items(i)
                .iter()
                .map(|m| parser.format_lr_item(&parser.dfa.states[i][*m]))
                .collect()
        })
        .collect();
    assert_eq!(listed[0], expected[0]);
    expected.sort();
    listed.sort();
    assert_eq!(listed, expected);
}

#[test]
fn same_production_items_are_no_conflict() {
    // S -> x B D | x B c e, B -> b, D -> c | (empty) is LR(1); after `x b` the state holds
    // B -> b . twice, with different lookaheads.
    let cfg = Cfg::new(
        "S".to_string(),
        strings(&["S", "B", "D"]),
        strings(&["x", "b", "c", "e"]),
        vec![
            Production::new("S".to_string(), vec![t("x"), nt("B"), nt("D")]),
            Production::new("S".to_string(), vec![t("x"), nt("B"), t("c"), t("e")]),
            Production::new("B".to_string(), vec![t("b")]),
            Production::new("D".to_string(), vec![t("c")]),
            Production::new("D".to_string(), vec![]),
        ],
    );
    let parser = build(&cfg);
    assert_eq!(
        parse_tree(&parser, &["x", "b"]),
        node("S", vec![leaf("x"), node("B", vec![leaf("b")]), node("D", vec![])])
    );
    assert_eq!(
        parse_tree(&parser, &["x", "b", "c"]),
        node("S", vec![leaf("x"), node("B", vec![leaf("b")]), node("D", vec![leaf("c")])])
    );
    assert_eq!(
        parse_tree(&parser, &["x", "b", "c", "e"]),
        node("S", vec![leaf("x"), node("B", vec![leaf("b")]), leaf("c"), leaf("e")])
    );
    assert!(parser.parse(&["x", "b", "e"]).is_err());
}

#[test]
fn reduce_reduce_conflict_names_first_lookahead_by_name() {
    // S -> A y | B y | A x | B x, A -> z, B -> z: after `z`, A -> z . and B -> z . share the
    // lookaheads x and y; y is named first in the productions, x comes first by name.
    let cfg = Cfg::new(
        "S".to_string(),
        strings(&["S", "A", "B"]),
        strings(&["x", "y", "z"]),
        vec![
            Production::new("S".to_string(), vec![nt("A"), t("y")]),
            Production::new("S".to_string(), vec![nt("B"), t("y")]),
            Production::new("S".to_string(), vec![nt("A"), t("x")]),
            Production::new("S".to_string(), vec![nt("B"), t("x")]),
            Production::new("A".to_string(), vec![t("z")]),
            Production::new("B".to_string(), vec![t("z")]),
        ],
    );
    match Lr1Parser::new(&cfg) {
        Err(Lr1Error::Conflict(parser, c)) => {
            assert_eq!(c.kind, ConflictKind::ReduceReduce);
            assert_eq!(parser.cfgctx.symbols.names[c.lookahead], "x");
        }
        _ => panic!("expected a reduce-reduce conflict"),
    }
}

#[test]
fn shift_reduce_conflict_names_first_shifted_terminal() {
    // S -> A x | A y | y | x, A -> (empty): in the first state, `A -> .` reduces on x and y,
    // and the first item that shifts one of them is S -> . y.
    let cfg = Cfg::new(
        "S".to_string(),
        strings(&["S", "A"]),
        strings(&["x", "y"]),
        vec![
            Production::new("S".to_string(), vec![nt("A"), t("x")]),
            Production::new("S".to_string(), vec![nt("A"), t("y")]),
            Production::new("S".to_string(), vec![t("y")]),
            Production::new("S".to_string(), vec![t("x")]),
            Production::new("A".to_string(), vec![]),
        ],
    );
    match Lr1Parser::new(&cfg) {
        Err(Lr1Error::Conflict(parser, c)) => {
            assert_eq!(c.kind, ConflictKind::ShiftReduce);
            assert_eq!(c.state_id, 0);
            assert_eq!(parser.cfgctx.symbols.names[c.lookahead], "y");
        }
        _ => panic!("expected a shift-reduce conflict"),
    }
}
