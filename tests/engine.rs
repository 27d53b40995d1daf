use psi_parser::grammar::Rules;
use psi_parser::parse::NoActions;
use psi_parser::result::{ParseError, ParseValue, Token};
use psi_parser::rule::{Rule, RulePart};

fn term(s: &str) -> RulePart {
    RulePart::Term(s.to_string())
}

fn rule(name: &str, parts: Vec<RulePart>, transformer: Option<usize>) -> Rule {
    Rule { name: name.to_string(), parts, transformer }
}

fn tok(s: &str) -> ParseValue {
    ParseValue::Token(Token(s.to_string()))
}

#[test]
fn backtracking_shared_prefix() {
    let rules = Rules::new(vec![
        rule("ab", vec![term("a"), term("b")], None),
        rule("ab", vec![term("a"), term("c")], None),
    ]);
    let r = rules.parse_entire("ab", "ac", &NoActions);
    assert_eq!(r.unwrap(), ParseValue::List(vec![tok("a"), tok("c")]));
}

#[test]
fn rule_not_found() {
    let rules = Rules::new(vec![rule("a", vec![term("x")], None)]);
    match rules.parse("b", "x", &NoActions) {
        Err(ParseError::RuleNotFound { rule_name }) => assert_eq!(rule_name, "b"),
        other => panic!("{other:?}"),
    }
}
