use psi_parser::grammar::Rules;
use psi_parser::parse::{ActionInput, ActionOutput, RuleTransformer};
use psi_parser::result::ParseValue;
use psi_parser::rule::{Rule, RulePart};

fn term(s: &str) -> RulePart {
    RulePart::Term(s.to_string())
}

fn nt(s: &str) -> RulePart {
    RulePart::NonTerm(s.to_string())
}

fn rule(name: &str, parts: Vec<RulePart>, transformer: Option<usize>) -> Rule {
    Rule { name: name.to_string(), parts, transformer }
}

fn token_text(v: &ParseValue) -> String {
    match v {
        ParseValue::Token(t) => t.0.clone(),
        other => panic!("not a token: {other:?}"),
    }
}

fn text(v: &ParseValue) -> String {
    match v {
        ParseValue::Str(s) => s.clone(),
        other => panic!("not a string: {other:?}"),
    }
}

fn number(v: &ParseValue) -> i64 {
    match v {
        ParseValue::Int(i) => *i,
        other => panic!("not an integer: {other:?}"),
    }
}

struct Actions(fn(usize, Vec<ParseValue>) -> Result<ParseValue, String>);

impl RuleTransformer for Actions {
    fn apply(&self, _action: usize, _values: ActionInput) -> ActionOutput {
        unreachable!()
    }

    fn transform(&self, action: usize, values: Vec<ParseValue>) -> Result<ParseValue, String> {
        (self.0)(action, values)
    }
}

fn plus_actions(action: usize, values: Vec<ParseValue>) -> Result<ParseValue, String> {
    match action {
        0 => Ok(ParseValue::Str("x".to_string())),
        1 => Ok(ParseValue::Str(format!("{}+{}", text(&values[0]), token_text(&values[2])))),
        _ => Err("unknown action".to_string()),
    }
}

#[test]
fn left_recursion() {
    let rules = Rules::new(vec![
        rule("start", vec![nt("expr")], None),
        rule("expr", vec![term("x")], Some(0)),
        rule("expr", vec![nt("expr"), term("+"), term("x")], Some(1)),
    ]);
    for input in ["x", "x+x", "x+x+x"] {
        let r = rules.parse_entire("start", input, &Actions(plus_actions)).expect("Should be parsed");
        assert_eq!(ParseValue::Str(input.to_string()), r);
    }
}

fn count_actions(action: usize, values: Vec<ParseValue>) -> Result<ParseValue, String> {
    match action {
        0 => Ok(ParseValue::Int(1)),
        1 => Ok(ParseValue::Int(number(&values[0]) + 1)),
        _ => Err("unknown action".to_string()),
    }
}

#[test]
fn left_recursion_long_chain() {
    let rules = Rules::new(vec![
        rule("expr", vec![term("x")], Some(0)),
        rule("expr", vec![nt("expr"), term("+"), term("x")], Some(1)),
    ]);
    let n = 40000;
    let input = std::iter::once("x").chain(std::iter::repeat("+x").take(n - 1)).collect::<String>();
    let r = rules.parse_entire("expr", &input, &Actions(count_actions)).expect("Should be parsed");
    assert_eq!(ParseValue::Int(n as i64), r);
}

#[test]
fn right_recursion_deep() {
    let rules = Rules::new(vec![
        rule("list", vec![term("a")], Some(0)),
        rule("list", vec![term("a"), nt("list")], Some(2)),
    ]);
    fn actions(action: usize, values: Vec<ParseValue>) -> Result<ParseValue, String> {
        match action {
            0 => Ok(ParseValue::Int(1)),
            2 => Ok(ParseValue::Int(number(&values[1]) + 1)),
            _ => Err("unknown action".to_string()),
        }
    }
    let n = 40000;
    let input = "a".repeat(n);
    let r = rules.parse_entire("list", &input, &Actions(actions)).expect("Should be parsed");
    assert_eq!(ParseValue::Int(n as i64), r);
}

/// Digits are the integers 0, 1 and 2; a number is the list of its digits.
fn ternary_actions(action: usize, values: Vec<ParseValue>) -> Result<ParseValue, String> {
    match action {
        0 => Ok(ParseValue::List(vec![ParseValue::Int(0)])),
        1 => {
            let mut it = values.into_iter();
            match (it.next(), it.next()) {
                (Some(ParseValue::List(mut v)), Some(d)) => {
                    v.push(d);
                    Ok(ParseValue::List(v))
                }
                other => Err(format!("unexpected {other:?}")),
            }
        }
        2 => Ok(ParseValue::List(values)),
        3 => Ok(ParseValue::Int(1)),
        4 => Ok(ParseValue::Int(2)),
        5 => Ok(ParseValue::Int(0)),
        _ => Err("unknown action".to_string()),
    }
}

#[test]
fn ternary() {
    let rules = Rules::new(vec![
        rule("start", vec![nt("ternary")], None),
        rule("ternary", vec![term("0")], Some(0)),
        rule("ternary", vec![nt("ternary_inner")], None),
        rule("ternary_inner", vec![nt("ternary_inner"), nt("digit")], Some(1)),
        rule("ternary_inner", vec![nt("digit_nonzero")], Some(2)),
        rule("digit_nonzero", vec![term("1")], Some(3)),
        rule("digit_nonzero", vec![term("2")], Some(4)),
        rule("digit", vec![term("0")], Some(5)),
        rule("digit", vec![term("1")], Some(3)),
        rule("digit", vec![term("2")], Some(4)),
    ]);
    let expected_result = ParseValue::List(vec![ParseValue::Int(1), ParseValue::Int(2), ParseValue::Int(0)]);
    let r = rules.parse_entire("start", "120", &Actions(ternary_actions)).expect("Should be parsed");
    assert_eq!(expected_result, r);
}

fn calculator_actions(action: usize, values: Vec<ParseValue>) -> Result<ParseValue, String> {
    match action {
        0 => Ok(values.into_iter().nth(1).unwrap()),
        1 => Ok(ParseValue::Int(number(&values[0]) + number(&values[4]))),
        2 => Ok(values.into_iter().nth(2).unwrap()),
        3 => Ok(ParseValue::Int(number(&values[0]) * number(&values[4]))),
        4 => Ok(ParseValue::Int(0)),
        5 => text(&values[0]).parse::<i64>().map(ParseValue::Int).map_err(|e| e.to_string()),
        6 => Ok(ParseValue::Str(token_text(&values[0]))),
        7 => Ok(ParseValue::Str(format!("{}{}", text(&values[0]), token_text(&values[1])))),
        8 => Ok(ParseValue::Str(format!("{}0", text(&values[0])))),
        _ => Err("unknown action".to_string()),
    }
}

#[test]
fn calculator() {
    let mut rules = vec![
        rule("start", vec![nt("ws"), nt("term"), nt("ws")], Some(0)),
        rule("ws", vec![], None),
        rule("ws", vec![nt("ws"), term(" ")], None),
        rule("expr", vec![nt("term")], None),
        rule("term", vec![nt("factor")], None),
        rule("term", vec![nt("term"), nt("ws"), term("+"), nt("ws"), nt("term")], Some(1)),
        rule("factor", vec![nt("int")], None),
        rule("factor", vec![term("("), nt("ws"), nt("expr"), nt("ws"), term(")")], Some(2)),
        rule("factor", vec![nt("factor"), nt("ws"), term("*"), nt("ws"), nt("factor")], Some(3)),
        rule("int", vec![term("0")], Some(4)),
        rule("int", vec![nt("_int")], Some(5)),
        rule("_int", vec![nt("digit_nonzero")], Some(6)),
        rule("_int", vec![nt("_int"), nt("digit_nonzero")], Some(7)),
        rule("_int", vec![nt("_int"), term("0")], Some(8)),
    ];
    for d in ["1", "2", "3", "4", "5", "6", "7", "8", "9"] {
        rules.push(rule("digit_nonzero", vec![term(d)], None));
    }
    let rules = Rules::new(rules);
    let input = "       12 * 5 + 16 * 2     ";
    let expected_result = 12 * 5 + 16 * 2;
    let r = rules.parse_entire("start", input, &Actions(calculator_actions)).expect("Should be parsed");
    assert_eq!(ParseValue::Int(expected_result), r);
}
