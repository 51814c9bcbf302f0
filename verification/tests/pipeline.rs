use glr::automaton::{create_table, try_create_table};
use glr::grammar::{get_atom_string, Atom, GrammarItem};
use glr::lex::{escape_re_string, gen_lex, gen_re, try_gen_lex, Lex};
use glr::notation::{grammar_gen, try_grammar_gen};
use glr::order::{compare_items, sort_items_descending};
use glr::parser::{parse, parse_bounded, SyntaxTreeNode};
use glr::sequitur::{sequitur, PairCounter};
use glr::table::{create_grammars_hashmap, Action, ActionRow, GotoRow, LRItem, TableItem};
use std::collections::VecDeque;

fn sym(s: &str) -> Atom {
    Atom::Symbol(s.to_string())
}

fn term(s: &str) -> Atom {
    Atom::Terminal(s.to_string())
}

fn rule(s: &str, prod: Vec<Atom>) -> GrammarItem {
    GrammarItem { symbol: sym(s), production: prod }
}

fn goal_item(start: &str) -> LRItem {
    LRItem { stacktop: 0, terminal: term("<EOFMARKER>"), symbol: sym("Goal"), production: vec![sym(start)] }
}

fn word(t: &str) -> Lex {
    Lex { atom: term(t), value: None }
}

/// A tree written as text: `symbol` for a leaf, `symbol(child child ...)` for a node.
fn show(node: &SyntaxTreeNode) -> String {
    let mut s = node.symbol.clone();
    if let Some(v) = &node.value {
        s.push('=');
        s.push_str(v);
    }
    if let Some(children) = &node.children {
        s.push('(');
        let parts: Vec<String> = children.iter().map(|c| show(c)).collect();
        s.push_str(&parts.join(" "));
        s.push(')');
    }
    s
}

fn show_stack(stack: &VecDeque<Box<SyntaxTreeNode>>) -> String {
    let parts: Vec<String> = stack.iter().map(|c| show(c)).collect();
    parts.join(" ")
}

fn action_items(rows: &Vec<ActionRow>, state: usize, t: &str) -> Vec<TableItem> {
    match rows[state].find(&t.to_string()) {
        Some(i) => rows[state].entries[i].items.clone(),
        None => vec![],
    }
}

fn run_pipeline(grammar: &str, start: &str, words: &[&str]) -> Vec<String> {
    let rules = grammar_gen(grammar, &vec![]);
    let map = create_grammars_hashmap(rules);
    let (action, goto) = create_table(&map, goal_item(start));
    let mut lexes: Vec<Lex> = words.iter().map(|w| word(w)).collect();
    lexes.push(word("<EOFMARKER>"));
    parse(lexes, action, goto).iter().map(|s| show_stack(s)).collect()
}

#[test]
fn grammar_gen_reads_list_pair_grammar() {
    let grammar_raw = "
        Goal = List 
        List = Pair+
        Pair = \'(\' Pair? \')\' 
    ";
    let rules = grammar_gen(grammar_raw, &vec![]);
    let expected = vec![
        rule("Goal", vec![sym("List")]),
        rule("~0List", vec![sym("Pair")]),
        rule("~0List", vec![sym("~0List"), sym("Pair")]),
        rule("List", vec![sym("~0List")]),
        rule("~1Pair", vec![sym("Pair")]),
        rule("~1Pair", vec![]),
        rule("Pair", vec![term("("), sym("~1Pair"), term(")")]),
    ];
    assert_eq!(rules, expected);
}

#[test]
fn grammar_gen_alternatives_and_tokens() {
    let rules = grammar_gen("E = E plus T | T\nT = num\n", &vec!["plus".to_string(), "num".to_string()]);
    let expected = vec![
        rule("E", vec![sym("E"), term("plus"), sym("T")]),
        rule("E", vec![sym("T")]),
        rule("T", vec![term("num")]),
    ];
    assert_eq!(rules, expected);
}

#[test]
fn grammar_gen_groups() {
    let rules = grammar_gen("A = x (y z)* w\n", &vec![]);
    // The group becomes the rule `A1~`, which the `*` then repeats as `~1A`.
    let expected = vec![
        rule("A1~", vec![sym("y"), sym("z")]),
        rule("~1A", vec![sym("A1~")]),
        rule("~1A", vec![]),
        rule("~1A", vec![sym("~1A"), sym("A1~")]),
        rule("A", vec![sym("x"), sym("~1A"), sym("w")]),
    ];
    assert_eq!(rules, expected);
}

#[test]
fn grammar_gen_empty_text() {
    assert!(grammar_gen("", &vec![]).is_empty());
}

#[test]
fn grammars_hashmap_groups_rules_by_name() {
    let rules = vec![
        rule("S", vec![term("a")]),
        rule("T", vec![term("b")]),
        rule("S", vec![sym("T")]),
    ];
    let map = create_grammars_hashmap(rules);
    let s = map.get(&"S".to_string()).unwrap();
    assert_eq!(s, &vec![rule("S", vec![term("a")]), rule("S", vec![sym("T")])]);
    let t = map.get(&"T".to_string()).unwrap();
    assert_eq!(t, &vec![rule("T", vec![term("b")])]);
    assert!(map.get(&"U".to_string()).is_none());
    assert_eq!(map.entries.len(), 2);
}

#[test]
fn atom_string_is_its_name() {
    assert_eq!(get_atom_string(&sym("List")), "List");
    assert_eq!(get_atom_string(&term("(")), "(");
}

#[test]
fn table_of_sequence_grammar() {
    let map = create_grammars_hashmap(vec![rule("S", vec![term("a"), term("b")])]);
    let (action, goto) = create_table(&map, goal_item("S"));
    assert_eq!(action.len(), 4);
    assert_eq!(goto.len(), 4);
    let shift = |s: u32| TableItem { state: s, lr_item: None, action: Action::Shift };
    let reduce = |g: GrammarItem| TableItem { state: 0, lr_item: Some(g), action: Action::Reduce };
    assert_eq!(action_items(&action, 0, "a"), vec![shift(1)]);
    assert_eq!(goto[0].get(&"S".to_string()), Some(2));
    assert_eq!(action_items(&action, 1, "b"), vec![shift(3)]);
    assert_eq!(
        action_items(&action, 2, "<EOFMARKER>"),
        vec![reduce(GrammarItem { symbol: sym("Goal"), production: vec![sym("S")] })]
    );
    assert_eq!(action_items(&action, 3, "<EOFMARKER>"), vec![reduce(rule("S", vec![term("a"), term("b")]))]);
    assert!(action_items(&action, 0, "b").is_empty());
    assert_eq!(goto[1].get(&"S".to_string()), None);
}

#[test]
fn table_takes_lookaheads_from_first_terminals() {
    let map = create_grammars_hashmap(vec![rule("S", vec![sym("A"), term("b")]), rule("A", vec![term("a")])]);
    let (action, goto) = create_table(&map, goal_item("S"));
    let shifts = action_items(&action, 0, "a");
    assert_eq!(shifts.len(), 1);
    assert_eq!(shifts[0].action, Action::Shift);
    let target = shifts[0].state as usize;
    let reduce = |g: GrammarItem| TableItem { state: 0, lr_item: Some(g), action: Action::Reduce };
    assert_eq!(action_items(&action, target, "b"), vec![reduce(rule("A", vec![term("a")]))]);
    assert!(action_items(&action, target, "<EOFMARKER>").is_empty());
    assert!(goto[0].get(&"A".to_string()).is_some());
}

#[test]
fn table_of_ambiguous_grammar_keeps_both_reductions() {
    let map = create_grammars_hashmap(vec![rule("S", vec![term("a")]), rule("S", vec![sym("A")]), rule("A", vec![term("a")])]);
    let (action, _goto) = create_table(&map, goal_item("S"));
    let reduce = |g: GrammarItem| TableItem { state: 0, lr_item: Some(g), action: Action::Reduce };
    assert_eq!(
        action_items(&action, 1, "<EOFMARKER>"),
        vec![reduce(rule("S", vec![term("a")])), reduce(rule("A", vec![term("a")]))]
    );
}

#[test]
fn parse_sequence() {
    let trees = run_pipeline("S = 'a' 'b'", "S", &["a", "b"]);
    assert_eq!(trees, vec!["Goal(S(a b))".to_string()]);
}

#[test]
fn parse_splits_on_conflicts() {
    let trees = run_pipeline("S = 'a' | A\nA = 'a'", "S", &["a"]);
    assert_eq!(trees, vec!["a".to_string(), "Goal(S(a))".to_string(), "Goal(S(A(a)))".to_string()]);
}

#[test]
fn parse_folds_repetition_symbols() {
    let trees = run_pipeline("S = 'a'+", "S", &["a", "a", "a"]);
    assert_eq!(trees, vec!["Goal(S(a a a))".to_string()]);
}

#[test]
fn parse_keeps_token_text() {
    let map = create_grammars_hashmap(grammar_gen("S = num", &vec!["num".to_string()]));
    let (action, goto) = create_table(&map, goal_item("S"));
    let lexes = vec![Lex { atom: term("num"), value: Some("42".to_string()) }, word("<EOFMARKER>")];
    let trees: Vec<String> = parse(lexes, action, goto).iter().map(|s| show_stack(s)).collect();
    assert_eq!(trees, vec!["Goal(S(num=42))".to_string()]);
}

#[test]
fn parse_stops_on_unexpected_token() {
    let trees = run_pipeline("S = 'a' 'b'", "S", &["b"]);
    assert_eq!(trees, vec!["".to_string()]);
}

#[test]
fn parse_of_no_tokens() {
    let map = create_grammars_hashmap(vec![rule("S", vec![term("a")])]);
    let (action, goto) = create_table(&map, goal_item("S"));
    let trees = parse(vec![], action, goto);
    assert_eq!(trees.len(), 1);
    assert!(trees[0].is_empty());
}

#[test]
fn parse_is_deterministic() {
    let a = run_pipeline("S = 'a' | A\nA = 'a'", "S", &["a"]);
    let b = run_pipeline("S = 'a' | A\nA = 'a'", "S", &["a"]);
    assert_eq!(a, b);
}

#[test]
fn syntax_tree_clone_is_deep() {
    let leaf = SyntaxTreeNode { value: Some("1".to_string()), symbol: "num".to_string(), children: None };
    let mut children = VecDeque::new();
    children.push_back(Box::new(leaf));
    let node = SyntaxTreeNode { value: None, symbol: "E".to_string(), children: Some(children) };
    let copy = node.clone();
    assert_eq!(show(&copy), "E(num=1)");
}

#[test]
fn escape_puts_backslash_before_special_characters() {
    assert_eq!(escape_re_string("a.b*c".to_string()), "a\\.b\\*c");
    assert_eq!(escape_re_string("(x|y)+?".to_string()), "\\(x\\|y\\)\\+\\?");
    assert_eq!(escape_re_string("[a]{2}^$\\".to_string()), "\\[a\\]\\{2\\}\\^\\$\\\\");
    assert_eq!(escape_re_string("plain".to_string()), "plain");
}

#[test]
fn gen_re_builds_token_regex() {
    let (tokens, re) = gen_re(
        "NUM = [0-9]+\n\n  ID = [a-z]+  \n".to_string(),
        vec!["if".to_string(), "\\+".to_string(), "if".to_string()],
    );
    assert_eq!(tokens, vec!["NUM".to_string(), "ID".to_string()]);
    assert_eq!(re, "if\\b|\\+|([0-9]+)|([a-z]+)");
}

#[test]
fn gen_re_keeps_equals_in_regex() {
    let (tokens, re) = gen_re("OP = a=b = c\nEMPTY".to_string(), vec![]);
    assert_eq!(tokens, vec!["OP".to_string(), "EMPTY".to_string()]);
    assert_eq!(re, "|(a=b=c)|()");
}

#[test]
fn gen_lex_tokenizes_program() {
    let (lexes, tokens) = gen_lex(
        "if x1 + 42".to_string(),
        "ID = [a-z][a-z0-9]*\nNUM = [0-9]+".to_string(),
        "S = 'if' ID '+' NUM".to_string(),
    );
    assert_eq!(tokens, vec!["ID".to_string(), "NUM".to_string()]);
    assert_eq!(
        lexes,
        vec![
            Lex { atom: term("if"), value: None },
            Lex { atom: term("ID"), value: Some("x1".to_string()) },
            Lex { atom: term("+"), value: None },
            Lex { atom: term("NUM"), value: Some("42".to_string()) },
        ]
    );
}

#[test]
fn try_gen_lex_refuses_invalid_regex() {
    let res = try_gen_lex("abc".to_string(), "BAD = (".to_string(), "S = BAD".to_string());
    assert!(res.is_none());
}

#[test]
fn try_gen_lex_agrees_with_gen_lex() {
    let res = try_gen_lex("a=b".to_string(), "W = [a-z]".to_string(), "S = W '=' W".to_string());
    let (lexes, tokens) = res.unwrap();
    assert_eq!(tokens, vec!["W".to_string()]);
    assert_eq!(
        lexes,
        vec![
            Lex { atom: term("W"), value: Some("a".to_string()) },
            Lex { atom: term("="), value: None },
            Lex { atom: term("W"), value: Some("b".to_string()) },
        ]
    );
    let direct = gen_lex("a=b".to_string(), "W = [a-z]".to_string(), "S = W '=' W".to_string());
    assert_eq!(direct.0, lexes);
}

#[test]
fn item_order_matches_derived_order() {
    let items = vec![
        LRItem { stacktop: 1, terminal: term("b"), symbol: sym("S"), production: vec![term("a")] },
        LRItem { stacktop: 0, terminal: term("b"), symbol: sym("S"), production: vec![term("a")] },
        LRItem { stacktop: 0, terminal: term("a"), symbol: sym("S"), production: vec![term("a")] },
        LRItem { stacktop: 0, terminal: term("a"), symbol: sym("A"), production: vec![term("a")] },
        LRItem { stacktop: 0, terminal: term("a"), symbol: sym("A"), production: vec![sym("a")] },
        LRItem { stacktop: 0, terminal: sym("a"), symbol: sym("A"), production: vec![sym("a"), sym("b")] },
        LRItem { stacktop: 0, terminal: sym("a"), symbol: sym("A"), production: vec![] },
    ];
    for x in items.iter() {
        for y in items.iter() {
            let expected: i8 = match x.cmp(y) {
                std::cmp::Ordering::Less => -1,
                std::cmp::Ordering::Equal => 0,
                std::cmp::Ordering::Greater => 1,
            };
            assert_eq!(compare_items(x, y), expected);
        }
    }
    let mut by_std = items.clone();
    by_std.sort_by(|a, b| b.cmp(a));
    let mine = sort_items_descending(items.clone());
    assert_eq!(mine, by_std);
}

#[test]
fn sequitur_names_repeated_pairs() {
    let rules = sequitur(vec![term("a"), term("b"), term("a"), term("b")]);
    assert_eq!(rules, vec![rule("N1", vec![sym("N2"), sym("N2")]), rule("N2", vec![term("a"), term("b")])]);
}

#[test]
fn sequitur_ignores_pairs_of_equal_atoms() {
    let rules = sequitur(vec![term("a"), term("a"), term("a")]);
    assert_eq!(rules, vec![rule("N1", vec![term("a"), term("a"), term("a")])]);
}

#[test]
fn sequitur_of_nothing() {
    assert!(sequitur(vec![]).is_empty());
}

#[test]
fn pair_counter_sets_and_removes() {
    let mut c = PairCounter::new();
    c.set(&term("a"), &term("b"), 1);
    c.set(&term("b"), &term("a"), 3);
    c.set(&term("a"), &term("b"), 2);
    assert_eq!(c.get(&term("a"), &term("b")), Some(2));
    assert_eq!(c.get(&term("b"), &term("a")), Some(3));
    c.remove(&term("a"), &term("b"));
    assert_eq!(c.get(&term("a"), &term("b")), None);
    assert_eq!(c.get(&term("b"), &term("a")), Some(3));
    assert_eq!(c.entries.len(), 1);
}

#[test]
fn grammar_gen_is_deterministic() {
    let text = "A = x (y z)* w\nB = 'q'? A+\n";
    assert_eq!(grammar_gen(text, &vec![]), grammar_gen(text, &vec![]));
}

#[test]
fn list_pair_grammar_parses() {
    let grammar_raw = "
        Goal = List 
        List = Pair+
        Pair = \'(\' Pair? \')\' 
    ";
    let grammar = grammar_gen(grammar_raw, &vec![]);
    let map = create_grammars_hashmap(grammar);
    let initial_item = LRItem {
        stacktop: 0,
        terminal: term("<EOFMARKER>"),
        symbol: sym("Goal"),
        production: vec![sym("List")],
    };
    let (action, goto) = create_table(&map, initial_item);
    // every target is a row of the table
    for row in action.iter() {
        for entry in row.entries.iter() {
            for item in entry.items.iter() {
                assert!((item.state as usize) < action.len());
            }
        }
    }
    for row in goto.iter() {
        for entry in row.entries.iter() {
            assert!((entry.state as usize) < goto.len());
        }
    }
    let mut orders = vec![];
    for _ in 0..2 {
        for (value, atom) in [("lp1", "("), ("lp2", "("), ("rp1", ")"), ("rp2", ")"), ("lp3", "("), ("rp3", ")")] {
            orders.push(Lex { value: Some(value.to_string()), atom: term(atom) });
        }
    }
    orders.push(Lex { value: Some("endmark".to_string()), atom: term("<EOFMARKER>") });
    let trees: Vec<String> = parse(orders, action, goto).iter().map(|s| show_stack(s)).collect();
    let p1 = "Pair((=lp1 Pair((=lp2 )=rp1) )=rp2)";
    let p2 = "Pair((=lp3 )=rp3)";
    assert_eq!(trees, vec![format!("Goal(List({} {} {} {}))", p1, p2, p1, p2)]);
}

#[test]
fn reductions_are_by_rules_of_the_grammar() {
    let rules = grammar_gen("S = A 'b' | 'c'\nA = 'a'?\n", &vec![]);
    let names: Vec<String> = rules.iter().map(|r| get_atom_string(&r.symbol)).collect();
    let map = create_grammars_hashmap(rules);
    let (action, _goto) = create_table(&map, goal_item("S"));
    let mut reductions = 0;
    for row in action.iter() {
        for entry in row.entries.iter() {
            for item in entry.items.iter() {
                if let Some(r) = &item.lr_item {
                    reductions += 1;
                    let name = get_atom_string(&r.symbol);
                    assert!(name == "Goal" || names.contains(&name));
                }
            }
        }
    }
    assert!(reductions > 0);
}

#[test]
fn try_grammar_gen_reads_as_grammar_gen() {
    let text = "S = ( 'a' 'b' )* 'c'\nT = S | 'd'";
    let tokens: Vec<String> = vec![];
    assert_eq!(try_grammar_gen(text, &tokens, 4), Some(grammar_gen(text, &tokens)));
}

#[test]
fn try_grammar_gen_refuses_groups_nested_too_deep() {
    let tokens: Vec<String> = vec![];
    assert_eq!(try_grammar_gen("S = ( 'a' 'b' )", &tokens, 0), None);
    assert!(try_grammar_gen("S = ( 'a' 'b' )", &tokens, 1).is_some());
}

#[test]
fn try_grammar_gen_refuses_too_many_open_parentheses() {
    let tokens: Vec<String> = vec![];
    let text = format!("S = {}", "(".repeat(256));
    assert_eq!(try_grammar_gen(&text, &tokens, 1000), None);
}

fn same_tables(a1: &Vec<ActionRow>, g1: &Vec<GotoRow>, a2: &Vec<ActionRow>, g2: &Vec<GotoRow>) -> bool {
    if a1.len() != a2.len() || g1.len() != g2.len() {
        return false;
    }
    for i in 0..a1.len() {
        if a1[i].entries.len() != a2[i].entries.len() || g1[i].entries.len() != g2[i].entries.len() {
            return false;
        }
        for e in a1[i].entries.iter() {
            if action_items(a2, i, &e.terminal) != e.items {
                return false;
            }
        }
        for e in g1[i].entries.iter() {
            if g2[i].get(&e.symbol) != Some(e.state) {
                return false;
            }
        }
    }
    true
}

#[test]
fn create_table_twice_gives_equal_tables() {
    let rules = grammar_gen("S = A 'b' | 'c' S\nA = 'a' A? | B\nB = 'x'*", &vec![]);
    let rules2 = grammar_gen("S = A 'b' | 'c' S\nA = 'a' A? | B\nB = 'x'*", &vec![]);
    let (a1, g1) = create_table(&create_grammars_hashmap(rules), goal_item("S"));
    let (a2, g2) = create_table(&create_grammars_hashmap(rules2), goal_item("S"));
    assert!(a1.len() > 1);
    assert!(same_tables(&a1, &g1, &a2, &g2));
}

fn leaf_names(node: &SyntaxTreeNode, out: &mut Vec<String>) {
    match &node.children {
        None => out.push(node.symbol.clone()),
        Some(children) => {
            for c in children.iter() {
                leaf_names(c, out);
            }
        }
    }
}

#[test]
fn parse_trees_keep_token_order() {
    let rules = grammar_gen("S = A 'c'+ | 'a' B\nA = 'a' 'b'\nB = 'b' 'c'+", &vec![]);
    let map = create_grammars_hashmap(rules);
    let (action, goto) = create_table(&map, goal_item("S"));
    let names = ["a", "b", "c", "c", "<EOFMARKER>"];
    let lexes: Vec<Lex> = names.iter().map(|w| word(w)).collect();
    let stacks = parse(lexes, action, goto);
    assert!(!stacks.is_empty());
    let mut whole = 0;
    for stack in stacks.iter() {
        let mut leaves: Vec<String> = vec![];
        for node in stack.iter() {
            leaf_names(node, &mut leaves);
        }
        assert!(leaves.len() <= names.len());
        for (i, l) in leaves.iter().enumerate() {
            assert_eq!(l, names[i]);
        }
        if leaves.len() == 4 && stack.len() == 1 {
            whole += 1;
        }
    }
    assert!(whole >= 1);
}

#[test]
fn try_create_table_ignores_long_rules_never_reached() {
    let long: Vec<Atom> = (0..300).map(|_| term("x")).collect();
    let map = create_grammars_hashmap(vec![rule("S", vec![term("a")]), rule("Unused", long.clone())]);
    let built = try_create_table(&map, goal_item("S"));
    assert!(built.is_some());
    let (action, _goto) = built.unwrap();
    assert_eq!(action_items(&action, 0, "a").len(), 1);
    let map2 = create_grammars_hashmap(vec![rule("S", vec![sym("Long")]), rule("Long", long)]);
    assert!(try_create_table(&map2, goal_item("S")).is_none());
}

#[test]
fn parse_bounded_agrees_with_parse() {
    let rules = grammar_gen("S = 'a' | A\nA = 'a'", &vec![]);
    let map = create_grammars_hashmap(rules);
    let (action, goto) = create_table(&map, goal_item("S"));
    let (action2, goto2) = create_table(&map, goal_item("S"));
    let (action3, goto3) = create_table(&map, goal_item("S"));
    let lexes = || vec![word("a"), word("<EOFMARKER>")];
    let full: Vec<String> = parse(lexes(), action, goto).iter().map(|s| show_stack(s)).collect();
    let bounded = parse_bounded(lexes(), action2, goto2, 1000).unwrap();
    let shown: Vec<String> = bounded.iter().map(|s| show_stack(s)).collect();
    assert_eq!(shown, full);
    assert!(parse_bounded(lexes(), action3, goto3, 0).is_none());
}
