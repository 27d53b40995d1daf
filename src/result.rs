//! Values and errors that a parse produces.
use vstd::prelude::*;

verus! {

/// A literal matched verbatim from the input.
#[derive(Clone, Debug, PartialEq, Eq, Hash)]
pub struct Token(pub String);

impl Token {
    /// The token holding a copy of `s`.
    pub fn from_str(s: &str) -> (r: Token)
        ensures
            r.0@ == s@,
    {
        Token(s.to_owned())
    }

    /// The matched text.
    pub fn as_str(&self) -> (r: &str)
        ensures
            r@ == self.0@,
    {
        self.0.as_str()
    }
}

/// A position in the input: an offset counted in characters, and the line
/// and column (both from 1) that it falls on.  Positions of one input are
/// ordered by their offset.
#[derive(Copy, Clone, Debug, PartialEq, Eq, PartialOrd, Ord, Hash)]
pub struct LineInfo {
    pub pos: usize,
    pub line: usize,
    pub column: usize,
}

impl LineInfo {
    /// The start of an input.
    pub fn zero() -> (r: Self)
        ensures
            r.pos == 0,
            r.line == 1,
            r.column == 1,
    {
        LineInfo { pos: 0, line: 1, column: 1 }
    }
}

impl Default for LineInfo {
    /// The start of an input, as `zero`.
    fn default() -> (r: Self)
        ensures
            r.pos == 0,
            r.line == 1,
            r.column == 1,
    {
        LineInfo::zero()
    }
}

/// A stretch of the input between two positions, ordered by start, then
/// end.
#[derive(Copy, Clone, Debug, PartialEq, Eq, PartialOrd, Ord, Hash)]
pub struct Span {
    pub start: LineInfo,
    pub end: LineInfo,
}

/// Why a parse failed.
#[derive(Debug, PartialEq)]
pub enum ParseError {
    /// The grammar names a rule that it does not define.
    RuleNotFound { rule_name: String },
    /// A literal did not match, or the input ended inside it.  `char` is the
    /// character found, `None` at the end of the input.
    UnexpectedChar { current_rule: String, char: Option<char>, pos: usize, row: usize, col: usize },
    /// A literal that a negative lookahead forbids stands at `pos`.
    UnexpectedToken { current_rule: String, token: String, pos: usize, row: usize, col: usize },
    /// Several alternatives failed as far into the input as any did.
    MultipleErrors { errors: Vec<ParseError> },
    /// An action refused the values of the rule entered at `pos`.
    ActionError { current_rule: String, pos: usize, row: usize, col: usize, error: String },
    /// The parse took more steps than its budget (a grammar that never
    /// stops, such as one with indirect left recursion).
    StepLimit { steps: usize },
}

/// The position that an error of a failed match reports.
pub open spec fn err_pos(e: ParseError) -> int {
    match e {
        ParseError::UnexpectedChar { pos, .. } => pos as int,
        ParseError::UnexpectedToken { pos, .. } => pos as int,
        _ => 0,
    }
}

/// Two errors of failed matches say the same.
pub open spec fn err_same(a: ParseError, b: ParseError) -> bool {
    match (a, b) {
        (
            ParseError::UnexpectedChar { current_rule: r1, char: c1, pos: at1, row: w1, col: l1 },
            ParseError::UnexpectedChar { current_rule: r2, char: c2, pos: at2, row: w2, col: l2 },
        ) => r1@ == r2@ && c1 == c2 && at1 == at2 && w1 == w2 && l1 == l2,
        (
            ParseError::UnexpectedToken { current_rule: r1, token: t1, pos: at1, row: w1, col: l1 },
            ParseError::UnexpectedToken { current_rule: r2, token: t2, pos: at2, row: w2, col: l2 },
        ) => r1@ == r2@ && t1@ == t2@ && at1 == at2 && w1 == w2 && l1 == l2,
        _ => false,
    }
}

/// Whether two errors of failed matches say the same.
pub fn same_error(a: &ParseError, b: &ParseError) -> (r: bool)
    ensures
        r == err_same(*a, *b),
{
    match (a, b) {
        (
            ParseError::UnexpectedChar { current_rule: r1, char: c1, pos: at1, row: w1, col: l1 },
            ParseError::UnexpectedChar { current_rule: r2, char: c2, pos: at2, row: w2, col: l2 },
        ) => {
            let same_char = match (c1, c2) {
                (Some(x), Some(y)) => *x == *y,
                (None, None) => true,
                _ => false,
            };
            r1.eq(r2) && same_char && *at1 == *at2 && *w1 == *w2 && *l1 == *l2
        },
        (
            ParseError::UnexpectedToken { current_rule: r1, token: t1, pos: at1, row: w1, col: l1 },
            ParseError::UnexpectedToken { current_rule: r2, token: t2, pos: at2, row: w2, col: l2 },
        ) => r1.eq(r2) && t1.eq(t2) && *at1 == *at2 && *w1 == *w2 && *l1 == *l2,
        _ => false,
    }
}

/// A value that a rule produces: a matched literal, the ordered children of
/// a rule without an action, or what an action made of them.
#[derive(Debug, PartialEq)]
pub enum ParseValue {
    Nothing,
    Token(Token),
    List(Vec<ParseValue>),
    Str(String),
    Int(i64),
    Bool(bool),
    Char(char),
}

/// A value as a mathematical value.
pub enum ValueModel {
    Nothing,
    Token(Seq<char>),
    List(Seq<ValueModel>),
    Str(Seq<char>),
    Int(i64),
    Bool(bool),
    Char(char),
}

/// The values as mathematical values, in order.
pub open spec fn values_view(vs: Seq<ParseValue>) -> Seq<ValueModel>
    decreases vs,
{
    if vs.len() == 0 {
        seq![]
    } else {
        seq![value_view(vs[0])] + values_view(vs.drop_first())
    }
}

/// A value as a mathematical value.
pub open spec fn value_view(v: ParseValue) -> ValueModel
    decreases v,
{
    match v {
        ParseValue::Nothing => ValueModel::Nothing,
        ParseValue::Token(t) => ValueModel::Token(t.0@),
        ParseValue::List(l) => {
            proof {
                lemma_list_decreases(v);
            }
            ValueModel::List(values_view(l@))
        },
        ParseValue::Str(s) => ValueModel::Str(s@),
        ParseValue::Int(i) => ValueModel::Int(i),
        ParseValue::Bool(b) => ValueModel::Bool(b),
        ParseValue::Char(c) => ValueModel::Char(c),
    }
}

pub proof fn lemma_list_decreases(v: ParseValue)
    requires
        v is List,
    ensures
        decreases_to!(v => v->List_0@),
{
    let l = v->List_0;
    assert(decreases_to!(v => l));
    vstd::std_specs::vec::axiom_vec_decreases_to_view(l);
    assert(decreases_to!(l => l@));
}

pub proof fn lemma_values_view(vs: Seq<ParseValue>)
    ensures
        values_view(vs).len() == vs.len(),
        forall|i: int| 0 <= i < vs.len() ==> #[trigger] values_view(vs)[i] == value_view(vs[i]),
    decreases vs.len(),
{
    if vs.len() > 0 {
        lemma_values_view(vs.drop_first());
        assert forall|i: int| 0 <= i < vs.len() implies #[trigger] values_view(vs)[i] == value_view(vs[i]) by {
            if i > 0 {
                assert(vs.drop_first()[i - 1] == vs[i]);
            }
        }
    }
}

/// Conversion of a plain value into a `ParseValue`.
pub trait IntoParseValue {
    fn into_value(self) -> ParseValue;
}

impl IntoParseValue for Token {
    fn into_value(self) -> (r: ParseValue)
        ensures
            r == ParseValue::Token(self),
    {
        ParseValue::Token(self)
    }
}

impl IntoParseValue for String {
    fn into_value(self) -> (r: ParseValue)
        ensures
            r == ParseValue::Str(self),
    {
        ParseValue::Str(self)
    }
}

impl IntoParseValue for i64 {
    fn into_value(self) -> (r: ParseValue)
        ensures
            r == ParseValue::Int(self),
    {
        ParseValue::Int(self)
    }
}

impl IntoParseValue for bool {
    fn into_value(self) -> (r: ParseValue)
        ensures
            r == ParseValue::Bool(self),
    {
        ParseValue::Bool(self)
    }
}

impl IntoParseValue for char {
    fn into_value(self) -> (r: ParseValue)
        ensures
            r == ParseValue::Char(self),
    {
        ParseValue::Char(self)
    }
}

impl IntoParseValue for Vec<ParseValue> {
    fn into_value(self) -> (r: ParseValue)
        ensures
            r == ParseValue::List(self),
    {
        ParseValue::List(self)
    }
}

} // verus!
