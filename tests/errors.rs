use psi_parser::grammar::Rules;
use psi_parser::parse::{ActionInput, ActionOutput, NoActions, RuleTransformer};
use psi_parser::result::{ParseError, ParseValue, Token};
use psi_parser::rule::{Rule, RulePart};

fn term(s: &str) -> RulePart {
    RulePart::Term(s.to_string())
}

fn nt(s: &str) -> RulePart {
    RulePart::NonTerm(s.to_string())
}

fn not(ls: &[&str]) -> RulePart {
    RulePart::Not(ls.iter().map(|s| s.to_string()).collect())
}

fn rule(name: &str, parts: Vec<RulePart>, transformer: Option<usize>) -> Rule {
    Rule { name: name.to_string(), parts, transformer }
}

fn tok(s: &str) -> ParseValue {
    ParseValue::Token(Token(s.to_string()))
}

fn unexpected_char(rule: &str, c: Option<char>, pos: usize, row: usize, col: usize) -> (String, Option<char>, usize, usize, usize) {
    (rule.to_string(), c, pos, row, col)
}

fn as_unexpected_char(e: &ParseError) -> (String, Option<char>, usize, usize, usize) {
    match e {
        ParseError::UnexpectedChar { current_rule, char, pos, row, col } => {
            (current_rule.clone(), *char, *pos, *row, *col)
        }
        other => panic!("not an unexpected character: {other:?}"),
    }
}

const ALLOWED_NAMES: &[&str] = &["John", "Jack"];

struct NameActions;

impl RuleTransformer for NameActions {
    fn apply(&self, _action: usize, _values: ActionInput) -> ActionOutput {
        unreachable!()
    }

    fn transform(&self, action: usize, values: Vec<ParseValue>) -> Result<ParseValue, String> {
        let text = |v: &ParseValue| match v {
            ParseValue::Str(s) => s.clone(),
            ParseValue::Token(t) => t.0.clone(),
            other => format!("{other:?}"),
        };
        match action {
            0 => Ok(ParseValue::Str(text(&values[0]))),
            1 => Ok(ParseValue::Str(format!("{}{}", text(&values[0]), text(&values[1])))),
            2 => {
                let name = text(&values[0]);
                if !ALLOWED_NAMES.contains(&name.as_str()) {
                    Err(format!("Name '{name}' is not allowed. Allowed names: {ALLOWED_NAMES:?}"))
                } else {
                    Ok(ParseValue::Str(name))
                }
            }
            _ => Err("unknown action".to_string()),
        }
    }
}

fn identifier_rules() -> Rules {
    let mut rules = vec![
        rule("identifier", vec![nt("identifier_start")], Some(0)),
        rule("identifier", vec![nt("identifier"), nt("identifier_continue")], Some(1)),
        rule("identifier_start", vec![nt("alpha")], None),
        rule("identifier_start", vec![term("_")], None),
        rule("identifier_continue", vec![nt("identifier_start")], None),
        rule("identifier_continue", vec![nt("digit")], None),
    ];
    for c in ('a'..='z').chain('A'..='Z') {
        rules.push(rule("alpha", vec![term(&c.to_string())], None));
    }
    for c in '0'..='9' {
        rules.push(rule("digit", vec![term(&c.to_string())], None));
    }
    Rules::new(rules)
}

#[test]
fn transformer_error() {
    let mut rules = Rules::new(vec![rule("start", vec![nt("id::identifier")], Some(2))]);
    rules.import(identifier_rules(), Some("id".to_string()));
    for name in ["John", "Jack"] {
        assert_eq!(Ok(ParseValue::Str(name.to_string())), rules.parse_entire("start", name, &NameActions));
    }
    match rules.parse_entire("start", "Garfield", &NameActions) {
        Err(ParseError::ActionError { current_rule, pos, row, col, error }) => {
            assert_eq!(current_rule, "start");
            assert_eq!((pos, row, col), (0, 1, 1));
            assert_eq!(error, "Name 'Garfield' is not allowed. Allowed names: [\"John\", \"Jack\"]");
        }
        other => panic!("{other:?}"),
    }
}

#[test]
fn action_error_at_rule_entry() {
    let rules = Rules::new(vec![
        rule("start", vec![term("a "), nt("name")], None),
        rule("name", vec![term("Garfield")], Some(2)),
    ]);
    match rules.parse_entire("start", "a Garfield", &NameActions) {
        Err(ParseError::ActionError { current_rule, pos, row, col, error }) => {
            assert_eq!(current_rule, "name");
            assert_eq!((pos, row, col), (2, 1, 3));
            assert!(error.starts_with("Name 'Garfield'"));
        }
        other => panic!("{other:?}"),
    }
}

#[test]
fn grammar_without_actions_refuses_an_action() {
    let rules = Rules::new(vec![rule("x", vec![term("a")], Some(0))]);
    match rules.parse("x", "a", &NoActions) {
        Err(ParseError::ActionError { current_rule, pos, .. }) => {
            assert_eq!(current_rule, "x");
            assert_eq!(pos, 0);
        }
        other => panic!("{other:?}"),
    }
}

#[test]
fn three_failures_at_one_position() {
    let rules = Rules::new(vec![
        rule("start", vec![nt("a")], None),
        rule("start", vec![nt("b")], None),
        rule("start", vec![nt("c")], None),
        rule("a", vec![term("x")], None),
        rule("b", vec![term("y")], None),
        rule("c", vec![term("z")], None),
    ]);
    match rules.parse("start", "w", &NoActions) {
        Err(ParseError::MultipleErrors { errors }) => {
            let got = errors.iter().map(as_unexpected_char).collect::<Vec<_>>();
            assert_eq!(
                got,
                vec![
                    unexpected_char("a", Some('w'), 0, 1, 1),
                    unexpected_char("b", Some('w'), 0, 1, 1),
                    unexpected_char("c", Some('w'), 0, 1, 1),
                ]
            );
        }
        other => panic!("{other:?}"),
    }
}

#[test]
fn equal_failures_are_reported_once() {
    let rules = Rules::new(vec![
        rule("start", vec![nt("p")], None),
        rule("start", vec![nt("q")], None),
        rule("p", vec![nt("a")], None),
        rule("q", vec![nt("a")], None),
        rule("a", vec![term("x")], None),
    ]);
    let e = rules.parse("start", "w", &NoActions).unwrap_err();
    assert_eq!(as_unexpected_char(&e), unexpected_char("a", Some('w'), 0, 1, 1));
}

#[test]
fn furthest_failure_wins() {
    let rules = Rules::new(vec![
        rule("start", vec![term("ab")], None),
        rule("start", vec![term("x")], None),
    ]);
    let e = rules.parse("start", "ac", &NoActions).unwrap_err();
    assert_eq!(as_unexpected_char(&e), unexpected_char("start", Some('c'), 1, 1, 2));
}

#[test]
fn end_of_input_inside_a_literal() {
    let rules = Rules::new(vec![rule("start", vec![term("abc")], None)]);
    let e = rules.parse("start", "ab", &NoActions).unwrap_err();
    assert_eq!(as_unexpected_char(&e), unexpected_char("start", None, 2, 1, 3));
}

#[test]
fn rule_not_found_inside_the_grammar() {
    let rules = Rules::new(vec![rule("start", vec![term("a"), nt("missing")], None)]);
    match rules.parse("start", "ab", &NoActions) {
        Err(ParseError::RuleNotFound { rule_name }) => assert_eq!(rule_name, "missing"),
        other => panic!("{other:?}"),
    }
}

#[test]
fn negative_lookahead() {
    let rules = Rules::new(vec![rule("r", vec![not(&["a", "b"])], None)]);
    for forbidden in ["a", "b"] {
        match rules.parse_entire("r", forbidden, &NoActions) {
            Err(ParseError::UnexpectedToken { current_rule, token, pos, row, col }) => {
                assert_eq!(current_rule, "r");
                assert_eq!(token, forbidden);
                assert_eq!((pos, row, col), (0, 1, 1));
            }
            other => panic!("{other:?}"),
        }
    }
    for other in ["c", "z", " ", "\n"] {
        assert_eq!(Ok(tok(other)), rules.parse_entire("r", other, &NoActions));
    }
    assert_eq!(Ok(tok("c")), rules.parse("r", "cd", &NoActions));
    let e = rules.parse("r", "", &NoActions).unwrap_err();
    assert_eq!(as_unexpected_char(&e), unexpected_char("r", None, 0, 1, 1));
}

#[test]
fn negative_lookahead_consumes_the_shortest_length() {
    let rules = Rules::new(vec![rule("r", vec![not(&["abc", "de"])], None)]);
    assert_eq!(Ok(tok("xy")), rules.parse("r", "xyz", &NoActions));
    assert_eq!(Ok(tok("ab")), rules.parse("r", "abd", &NoActions));
    match rules.parse("r", "dex", &NoActions) {
        Err(ParseError::UnexpectedToken { token, .. }) => assert_eq!(token, "de"),
        other => panic!("{other:?}"),
    }
    let e = rules.parse("r", "x", &NoActions).unwrap_err();
    assert_eq!(as_unexpected_char(&e), unexpected_char("r", None, 1, 1, 2));
}
