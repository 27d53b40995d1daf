use psi_parser::rule::{part_eq, RulePart};

#[test]
fn test_psi_rulepart_macro() {
    let expr = RulePart::NonTerm("expr".to_owned());
    let lit = RulePart::Term("123123".to_owned());
    assert!(part_eq(&expr, &RulePart::NonTerm("expr".to_owned())));
    assert!(part_eq(&lit, &RulePart::Term("123123".to_owned())));
    assert!(!part_eq(&lit, &expr));
}
