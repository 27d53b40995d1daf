use psi_parser::grammar::Rules;
use psi_parser::parse::{ActionInput, ActionOutput, NoActions, RuleTransformer};
use psi_parser::result::{ParseError, ParseValue, Token};
use psi_parser::rule::{Rule, RulePart};

fn term(s: &str) -> RulePart {
    RulePart::Term(s.to_string())
}

fn nt(s: &str) -> RulePart {
    RulePart::NonTerm(s.to_string())
}

fn not(ls: &[&str]) -> RulePart {
    RulePart::Not(ls.iter().map(|s| s.to_string()).collect())
}

fn rule(name: &str, parts: Vec<RulePart>, transformer: Option<usize>) -> Rule {
    Rule { name: name.to_string(), parts, transformer }
}

fn tok(s: &str) -> ParseValue {
    ParseValue::Token(Token(s.to_string()))
}

fn token_text(v: &ParseValue) -> String {
    match v {
        ParseValue::Token(t) => t.0.clone(),
        other => panic!("not a token: {other:?}"),
    }
}

fn text(v: &ParseValue) -> String {
    match v {
        ParseValue::Str(s) => s.clone(),
        other => panic!("not a string: {other:?}"),
    }
}

/// Actions given as a plain function of the action index and the values.
struct Actions(fn(usize, Vec<ParseValue>) -> Result<ParseValue, String>);

impl RuleTransformer for Actions {
    fn apply(&self, _action: usize, _values: ActionInput) -> ActionOutput {
        unreachable!()
    }

    fn transform(&self, action: usize, values: Vec<ParseValue>) -> Result<ParseValue, String> {
        (self.0)(action, values)
    }
}

#[test]
fn hello_world() {
    let rules = Rules::new(vec![
        rule("start", vec![nt("hello_world")], None),
        rule("hello_world", vec![term("hello"), term(" "), term("world")], None),
    ]);
    let result = rules.parse_entire("start", "hello world", &NoActions).expect("Could not parse");
    assert_eq!(ParseValue::List(vec![tok("hello"), tok(" "), tok("world")]), result);
}

fn aab_actions(action: usize, values: Vec<ParseValue>) -> Result<ParseValue, String> {
    match action {
        0 => {
            let mut it = values.into_iter();
            let v0 = it.next().unwrap();
            match it.next().unwrap() {
                ParseValue::List(mut v1) => {
                    v1.insert(0, v0);
                    Ok(ParseValue::List(v1))
                }
                v1 => Ok(ParseValue::List(vec![v0, v1])),
            }
        }
        _ => Err("unknown action".to_string()),
    }
}

#[test]
fn aab() {
    let rules = Rules::new(vec![
        rule("start", vec![nt("aab")], None),
        rule("aab", vec![term("b")], None),
        rule("aab", vec![term("a"), nt("aab")], Some(0)),
    ]);
    let actions = Actions(aab_actions);
    assert_eq!(tok("b"), rules.parse_entire("start", "b", &actions).expect("Should be parsed"));
    assert_eq!(
        ParseValue::List(vec![tok("a"), tok("b")]),
        rules.parse_entire("start", "ab", &actions).expect("Should be parsed")
    );
    assert_eq!(
        ParseValue::List(vec![tok("a"), tok("a"), tok("b")]),
        rules.parse_entire("start", "aab", &actions).expect("Should be parsed")
    );
    assert_eq!(
        ParseValue::List(vec![tok("a"), tok("a"), tok("a"), tok("b")]),
        rules.parse_entire("start", "aaab", &actions).expect("Should be parsed")
    );
    let times = 1000;
    let input_huge = (0..times).map(|_| 'a').chain(['b']).collect::<String>();
    let expected = (0..times).map(|_| tok("a")).chain([tok("b")]).collect::<Vec<_>>();
    assert_eq!(
        ParseValue::List(expected),
        rules.parse_entire("start", &input_huge, &actions).expect("Should be parsed")
    );
}

/// `Ab` is the string "Ab"; `Ac(x)` is the list of "Ac" and x.
fn abc_actions(action: usize, values: Vec<ParseValue>) -> Result<ParseValue, String> {
    match action {
        0 => Ok(ParseValue::Str("Ab".to_string())),
        1 => {
            let inner = values.into_iter().nth(1).unwrap();
            Ok(ParseValue::List(vec![ParseValue::Str("Ac".to_string()), inner]))
        }
        _ => Err("unknown action".to_string()),
    }
}

#[test]
fn abc() {
    let rules = Rules::new(vec![
        rule("start", vec![nt("abc")], None),
        rule("abc", vec![term("a"), term("b")], Some(0)),
        rule("abc", vec![term("a"), nt("abc"), term("c")], Some(1)),
    ]);
    let ac = |x: ParseValue| ParseValue::List(vec![ParseValue::Str("Ac".to_string()), x]);
    let expected_result = ac(ac(ParseValue::Str("Ab".to_string())));
    assert_eq!(
        expected_result,
        rules.parse_entire("start", "aaabcc", &Actions(abc_actions)).expect("Should be parsed")
    );
}

fn xab_actions(action: usize, values: Vec<ParseValue>) -> Result<ParseValue, String> {
    match action {
        0 => Ok(ParseValue::Str("xa".to_string())),
        1 => Ok(ParseValue::Str(format!("{}b", token_text(&values[0])))),
        _ => Err("unknown action".to_string()),
    }
}

#[test]
fn xab() {
    let rules = Rules::new(vec![
        rule("start", vec![nt("xab")], None),
        rule("xab", vec![term("x"), term("a")], Some(0)),
        rule("xab", vec![not(&["a"]), term("b")], Some(1)),
    ]);
    for (input, expected_result) in [("xa", "xa"), ("xb", "xb")] {
        let r = rules.parse_entire("start", input, &Actions(xab_actions)).expect("Should be parsed");
        assert_eq!(ParseValue::Str(expected_result.to_string()), r, "input = \"{input}\"");
    }
}

fn char_actions(action: usize, values: Vec<ParseValue>) -> Result<ParseValue, String> {
    match action {
        0 => Ok(values.into_iter().nth(1).unwrap()),
        1 => Ok(ParseValue::Char(token_text(&values[0]).chars().next().unwrap())),
        2 => Ok(ParseValue::Char('\'')),
        3 => Ok(ParseValue::Char('\n')),
        4 => Ok(ParseValue::Char('\r')),
        5 => Ok(ParseValue::Char('\t')),
        6 => Ok(ParseValue::Char('\\')),
        7 => Ok(ParseValue::Char('\0')),
        _ => Err("unknown action".to_string()),
    }
}

#[test]
fn char_literal() {
    let rules = Rules::new(vec![
        rule("start", vec![nt("char")], None),
        rule("char", vec![term("'"), nt("char_inner"), term("'")], Some(0)),
        rule("char_inner", vec![nt("char_escape")], None),
        rule("char_inner", vec![not(&["'"])], Some(1)),
        rule("char_escape", vec![term("\\"), term("'")], Some(2)),
        rule("char_escape", vec![term("\\"), term("n")], Some(3)),
        rule("char_escape", vec![term("\\"), term("r")], Some(4)),
        rule("char_escape", vec![term("\\"), term("t")], Some(5)),
        rule("char_escape", vec![term("\\"), term("\\")], Some(6)),
        rule("char_escape", vec![term("\\"), term("0")], Some(7)),
    ]);
    let inputs = [
        ("'a'", 'a'),
        ("' '", ' '),
        ("'\\''", '\''),
        ("'\\n'", '\n'),
        ("'\\r'", '\r'),
        ("'\\t'", '\t'),
        ("'\\\\'", '\\'),
        ("'\\0'", '\0'),
    ];
    for (input, expected_result) in inputs {
        let r = rules.parse_entire("start", input, &Actions(char_actions)).expect("Should be parsed.");
        assert_eq!(ParseValue::Char(expected_result), r, "input = {input}");
    }
}

/// `OnePair(s)` is the list of 1 and s, and so on.
fn quotes(n: i64, s: &str) -> ParseValue {
    ParseValue::List(vec![ParseValue::Int(n), ParseValue::Str(s.to_string())])
}

fn quote_actions(action: usize, values: Vec<ParseValue>) -> Result<ParseValue, String> {
    match action {
        0 | 1 | 2 => Ok(quotes(action as i64 + 1, &text(&values[1]))),
        3 => Ok(ParseValue::Str(String::new())),
        4 => Ok(ParseValue::Str(format!("{}{}", text(&values[0]), token_text(&values[1])))),
        _ => Err("unknown action".to_string()),
    }
}

#[test]
fn advanced_not() {
    let rules = Rules::new(vec![
        rule("start", vec![term("'"), nt("_one_pair"), term("'")], Some(0)),
        rule("start", vec![term("''"), nt("_two_pairs"), term("''")], Some(1)),
        rule("start", vec![term("'''"), nt("_three_pairs"), term("'''")], Some(2)),
        rule("_one_pair", vec![], Some(3)),
        rule("_one_pair", vec![nt("_one_pair"), not(&["'"])], Some(4)),
        rule("_two_pairs", vec![], Some(3)),
        rule("_two_pairs", vec![nt("_two_pairs"), not(&["''"])], Some(4)),
        rule("_three_pairs", vec![], Some(3)),
        rule("_three_pairs", vec![nt("_three_pairs"), not(&["'''"])], Some(4)),
    ]);
    let inputs = [
        ("''", quotes(1, "")),
        ("' '", quotes(1, " ")),
        ("''''", quotes(2, "")),
        ("''''''", quotes(3, "")),
        ("''' ' '''", quotes(3, " ' ")),
    ];
    for (input, expected_result) in inputs {
        let r = rules.parse_entire("start", input, &Actions(quote_actions)).expect("Should be parsed.");
        assert_eq!(expected_result, r, "input: {input}");
    }
    // A negative lookahead consumes as many characters as its shortest
    // literal has, so an inner text whose length is no multiple of that
    // cannot be matched: the parse stops before the rest of the input.
    for (input, pos) in [("'' ' ''", 2), ("''' '' '''", 6)] {
        match rules.parse_entire("start", input, &Actions(quote_actions)) {
            Err(ParseError::UnexpectedChar { current_rule, char, pos: p, .. }) => {
                assert_eq!(current_rule, "<parse_entire>", "input: {input}");
                assert_eq!(char, Some(' '), "input: {input}");
                assert_eq!(p, pos, "input: {input}");
            }
            other => panic!("input: {input}: {other:?}"),
        }
    }
}

fn bool_actions(action: usize, _values: Vec<ParseValue>) -> Result<ParseValue, String> {
    match action {
        0 => Ok(ParseValue::Bool(true)),
        1 => Ok(ParseValue::Bool(false)),
        _ => Err("unknown action".to_string()),
    }
}

#[test]
fn import() {
    let boolean_rules = Rules::new(vec![
        rule("boolean", vec![term("true")], Some(0)),
        rule("boolean", vec![term("false")], Some(1)),
    ]);
    let mut rules = Rules::new(vec![rule("start", vec![nt("boolean::boolean")], None)]);
    rules.import(boolean_rules, Some("boolean".to_string()));
    for (input, expected_result) in [("true", true), ("false", false)] {
        let r = rules.parse_entire("start", input, &Actions(bool_actions)).expect("Should be parsed");
        assert_eq!(ParseValue::Bool(expected_result), r, "input = \"{input}\"");
    }
}

/// Names are strings; `Hello(n)` is the list of "Hello" and n, and so on.
fn greeting_actions(action: usize, values: Vec<ParseValue>) -> Result<ParseValue, String> {
    let greet = |g: &str, values: Vec<ParseValue>| {
        Ok(ParseValue::List(vec![ParseValue::Str(g.to_string()), values.into_iter().nth(1).unwrap()]))
    };
    match action {
        0 => Ok(ParseValue::Str("John".to_string())),
        1 => Ok(ParseValue::Str("James".to_string())),
        2 => Ok(ParseValue::Str("Joey".to_string())),
        3 => greet("Hello", values),
        4 => greet("Hi", values),
        5 => greet("Greetings", values),
        _ => Err("unknown action".to_string()),
    }
}

#[test]
fn import2() {
    let names_rules = Rules::new(vec![
        rule("name", vec![term("John")], Some(0)),
        rule("name", vec![term("James")], Some(1)),
        rule("name", vec![term("Joey")], Some(2)),
    ]);
    let mut greeting_rules = Rules::new(vec![
        rule("greeting", vec![term("Hello "), nt("names::name"), term("!")], Some(3)),
        rule("greeting", vec![term("Hi "), nt("names::name"), term("!")], Some(4)),
        rule("greeting", vec![term("Greetings "), nt("names::name"), term("!")], Some(5)),
    ]);
    greeting_rules.import(names_rules, Some("names".to_string()));
    let mut rules = Rules::new(vec![rule("start", vec![nt("greetings::greeting")], None)]);
    rules.import(greeting_rules, Some("greetings".to_string()));
    let greeting = |g: &str, n: &str| {
        ParseValue::List(vec![ParseValue::Str(g.to_string()), ParseValue::Str(n.to_string())])
    };
    let inputs = [
        ("Hello John!", greeting("Hello", "John")),
        ("Hello Joey!", greeting("Hello", "Joey")),
        ("Hi John!", greeting("Hi", "John")),
        ("Greetings James!", greeting("Greetings", "James")),
        ("Greetings John!", greeting("Greetings", "John")),
    ];
    for (input, expected_result) in inputs {
        let r = rules.parse_entire("start", input, &Actions(greeting_actions)).expect("Should be parsed");
        assert_eq!(expected_result, r, "input = \"{input}\"");
    }
}
