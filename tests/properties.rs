use psi_parser::grammar::{Grammar, Rules};
use psi_parser::input::{CharsInput, Input};
use psi_parser::parse::{reduce_default, NoActions};
use psi_parser::result::{LineInfo, ParseError, ParseValue, Token};
use psi_parser::rule::{Rule, RulePart, RuleTree};

fn term(s: &str) -> RulePart {
    RulePart::Term(s.to_string())
}

fn nt(s: &str) -> RulePart {
    RulePart::NonTerm(s.to_string())
}

fn not(ls: &[&str]) -> RulePart {
    RulePart::Not(ls.iter().map(|s| s.to_string()).collect())
}

fn rule(name: &str, parts: Vec<RulePart>, transformer: Option<usize>) -> Rule {
    Rule { name: name.to_string(), parts, transformer }
}

fn tok(s: &str) -> ParseValue {
    ParseValue::Token(Token(s.to_string()))
}

fn same_forests(a: &[RuleTree], b: &[RuleTree]) -> bool {
    a.len() == b.len() && a.iter().zip(b.iter()).all(|(x, y)| x.same_shape_as(y))
}

/// Describes a forest's top level: `R` for the recursion marker, `"lit"`,
/// `<name>`, `!` for a negative lookahead, `.` for an end.
fn heads(f: &[RuleTree]) -> Vec<String> {
    f.iter()
        .map(|t| match t {
            RuleTree::Part { part: RulePart::Recurse, .. } => "R".to_string(),
            RuleTree::Part { part: RulePart::Term(s), .. } => format!("\"{s}\""),
            RuleTree::Part { part: RulePart::NonTerm(s), .. } => format!("<{s}>"),
            RuleTree::Part { part: RulePart::Not(_), .. } => "!".to_string(),
            RuleTree::End { .. } => ".".to_string(),
        })
        .collect()
}

#[test]
fn same_input_same_result() {
    let rules = Rules::new(vec![
        rule("s", vec![term("a"), nt("s")], None),
        rule("s", vec![term("b")], None),
    ]);
    for input in ["aab", "aac", "", "b"] {
        let first = rules.parse_entire("s", input, &NoActions);
        let second = rules.parse_entire("s", input, &NoActions);
        assert_eq!(first, second, "input = {input:?}");
    }
}

#[test]
fn longer_literal_first() {
    let rules = Rules::new(vec![
        rule("op", vec![term("=")], None),
        rule("op", vec![term("==")], None),
    ]);
    assert_eq!(Ok(tok("==")), rules.parse_entire("op", "==", &NoActions));
    assert_eq!(Ok(tok("=")), rules.parse_entire("op", "=", &NoActions));
}

#[test]
fn entire_and_partial_parse() {
    let rules = Rules::new(vec![rule("r", vec![term("a")], None)]);
    assert_eq!(Ok(tok("a")), rules.parse("r", "ab", &NoActions));
    assert_eq!(Ok(tok("a")), rules.parse_proc("r", "ab", &NoActions));
    assert_eq!(
        Err(ParseError::UnexpectedChar {
            current_rule: "<parse_entire>".to_string(),
            char: Some('b'),
            pos: 1,
            row: 1,
            col: 2,
        }),
        rules.parse_entire("r", "ab", &NoActions)
    );
    assert_eq!(Ok(tok("a")), rules.parse_entire("r", "a", &NoActions));
    let lines = Rules::new(vec![rule("r", vec![term("a\n")], None)]);
    assert_eq!(
        Err(ParseError::UnexpectedChar {
            current_rule: "<parse_entire>".to_string(),
            char: Some('b'),
            pos: 2,
            row: 2,
            col: 1,
        }),
        lines.parse_entire("r", "a\nb", &NoActions)
    );
}

#[test]
fn empty_alternative_and_empty_input() {
    let rules = Rules::new(vec![rule("e", vec![], None)]);
    assert_eq!(Ok(ParseValue::List(vec![])), rules.parse_entire("e", "", &NoActions));
    let empty = Rules::new(vec![]);
    assert_eq!(
        Err(ParseError::RuleNotFound { rule_name: "x".to_string() }),
        empty.parse("x", "", &NoActions)
    );
}

#[test]
fn non_ascii_input() {
    let rules = Rules::new(vec![
        rule("r", vec![term("é"), not(&["ü"])], None),
    ]);
    assert_eq!(Ok(ParseValue::List(vec![tok("é"), tok("ß")])), rules.parse_entire("r", "éß", &NoActions));
}

fn alternatives() -> Vec<Rule> {
    vec![
        rule("x", vec![term("a"), term("b")], Some(0)),
        rule("x", vec![term("a"), term("c")], Some(1)),
        rule("x", vec![nt("y")], None),
        rule("x", vec![term("=")], None),
        rule("x", vec![term("==")], None),
        rule("x", vec![not(&["q"]), term("r")], None),
        rule("x", vec![not(&["s", "t"]), term("u")], None),
        rule("x", vec![nt("x"), term("+")], None),
        rule("x", vec![], None),
        rule("y", vec![term("a")], None),
    ]
}

#[test]
fn compile_order_insensitive() {
    let forward = Rules::new(alternatives());
    let mut reversed = alternatives();
    reversed.reverse();
    let backward = Rules::new(reversed);
    let mut rotated = alternatives();
    rotated.rotate_left(4);
    let rotated = Rules::new(rotated);
    for name in ["x", "y"] {
        let f = forward.grammar.get_rule(name).unwrap();
        assert!(same_forests(f, backward.grammar.get_rule(name).unwrap()), "rule {name}");
        assert!(same_forests(f, rotated.grammar.get_rule(name).unwrap()), "rule {name}");
    }
    let x = forward.grammar.get_rule("x").unwrap();
    assert!(!same_forests(x, forward.grammar.get_rule("y").unwrap()));
}

#[test]
fn canonical_sibling_order() {
    let rules = Rules::new(alternatives());
    let x = rules.grammar.get_rule("x").unwrap();
    assert_eq!(heads(x), vec!["R", "\"==\"", "\"a\"", "\"=\"", "<y>", "!", "."]);
    match &x[2] {
        RuleTree::Part { nexts, .. } => assert_eq!(heads(nexts), vec!["\"b\"", "\"c\""]),
        other => panic!("{other:?}"),
    }
    match &x[5] {
        RuleTree::Part { part: RulePart::Not(ls), nexts } => {
            let mut ls = ls.clone();
            ls.sort();
            assert_eq!(ls, vec!["q", "s", "t"]);
            assert_eq!(heads(nexts), vec!["\"r\"", "\"u\""]);
        }
        other => panic!("{other:?}"),
    }
}

#[test]
fn further_reaching_sibling_first() {
    let rules = Rules::new(vec![
        rule("s", vec![nt("x")], None),
        rule("s", vec![nt("z"), nt("y")], None),
        rule("t", vec![term("b")], None),
        rule("t", vec![term("a"), term("c")], None),
    ]);
    assert_eq!(heads(rules.grammar.get_rule("s").unwrap()), vec!["<z>", "<x>"]);
    assert_eq!(heads(rules.grammar.get_rule("t").unwrap()), vec!["\"a\"", "\"b\""]);
}

#[test]
fn equivalent_compares_heads_only() {
    let end = || RuleTree::End { transformer: None };
    let a_then_b = RuleTree::Part { part: term("a"), nexts: vec![RuleTree::Part { part: term("b"), nexts: vec![end()] }] };
    let a_then_end = RuleTree::Part { part: term("a"), nexts: vec![end()] };
    let rule_a = RuleTree::Part { part: nt("a"), nexts: vec![end()] };
    assert!(a_then_b.equivalent(&a_then_end));
    assert!(!a_then_b.same_shape_as(&a_then_end));
    assert!(a_then_b.same_shape_as(&a_then_b));
    assert!(!a_then_b.equivalent(&rule_a));
    assert!(end().equivalent(&RuleTree::End { transformer: Some(1) }));
    assert!(!end().equivalent(&a_then_end));
}

#[test]
fn first_end_keeps_its_action() {
    let rules = Rules::new(vec![
        rule("x", vec![term("a")], Some(7)),
        rule("x", vec![term("a")], Some(8)),
    ]);
    let x = rules.grammar.get_rule("x").unwrap();
    match &x[0] {
        RuleTree::Part { nexts, .. } => match &nexts[0] {
            RuleTree::End { transformer } => assert_eq!(*transformer, Some(7)),
            other => panic!("{other:?}"),
        },
        other => panic!("{other:?}"),
    }
    assert_eq!(x.len(), 1);
}

#[test]
fn import_renames_rules_and_calls() {
    let inner = Rules::new(vec![
        rule("a", vec![nt("b"), term("!")], None),
        rule("b", vec![term("b")], None),
    ]);
    let mut rules = Rules::new(vec![rule("a", vec![term("plain")], None)]);
    rules.import(inner, Some("ns".to_string()));
    let a = rules.grammar.get_rule("ns::a").unwrap();
    assert_eq!(heads(a), vec!["<ns::b>"]);
    assert!(rules.grammar.get_rule("ns::b").is_some());
    assert_eq!(heads(rules.grammar.get_rule("a").unwrap()), vec!["\"plain\""]);
    assert_eq!(Ok(ParseValue::List(vec![tok("b"), tok("!")])), rules.parse_entire("ns::a", "b!", &NoActions));
}

#[test]
fn import_merges_into_existing_rule() {
    let more = Rules::new(vec![rule("a", vec![term("y")], None)]);
    let mut rules = Rules::new(vec![rule("a", vec![term("x")], None)]);
    rules.import(more, None);
    assert_eq!(heads(rules.grammar.get_rule("a").unwrap()), vec!["\"x\"", "\"y\""]);
    assert_eq!(Ok(tok("y")), rules.parse_entire("a", "y", &NoActions));
    assert_eq!(Ok(tok("x")), rules.parse_entire("a", "x", &NoActions));
}

#[test]
fn grammar_container() {
    let mut g = Grammar::empty();
    assert!(g.get_rule("a").is_none());
    g.add_rule("a".to_string(), vec![RuleTree::End { transformer: None }]);
    assert_eq!(g.get_rule("a").unwrap().len(), 1);
    g.add_rule("a".to_string(), vec![]);
    assert_eq!(g.get_rule("a").unwrap().len(), 0);
    let g = Grammar::new(vec![
        ("a".to_string(), vec![]),
        ("b".to_string(), vec![]),
        ("a".to_string(), vec![RuleTree::End { transformer: Some(3) }]),
    ]);
    assert_eq!(g.names.len(), 2);
    assert_eq!(g.get_rule("a").unwrap().len(), 1);
    assert_eq!(g.find("b"), Some(1));
}

#[test]
fn input_cursor() {
    let text = CharsInput::new("a\nbc");
    let mut i: Input = text.input();
    assert_eq!((i.pos(), i.row_col()), (0, (1, 1)));
    assert_eq!(i.next(), Some('a'));
    assert_eq!(i.row_col(), (1, 2));
    assert_eq!(i.next(), Some('\n'));
    assert_eq!((i.pos(), i.row_col()), (2, (2, 1)));
    assert_eq!(i.next(), Some('b'));
    assert_eq!(i.next(), Some('c'));
    assert_eq!(i.next(), None);
    assert_eq!(i.line_info(), LineInfo { pos: 4, line: 2, column: 3 });
    assert_eq!(LineInfo::zero(), LineInfo { pos: 0, line: 1, column: 1 });
    assert_eq!(LineInfo::default(), LineInfo::zero());
    let chars = vec!['x'];
    let mut j = Input::new(&chars);
    assert_eq!(j.next(), Some('x'));
    assert_eq!(j.next(), None);
    assert_eq!(j.pos(), 1);
}

#[test]
fn default_reduction() {
    assert_eq!(reduce_default(vec![tok("a")]), tok("a"));
    assert_eq!(reduce_default(vec![]), ParseValue::List(vec![]));
    assert_eq!(reduce_default(vec![tok("a"), tok("b")]), ParseValue::List(vec![tok("a"), tok("b")]));
}
