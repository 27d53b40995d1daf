//! The parser: an interpreter over the compiled forests that keeps every
//! frame and every value buffer on heap stacks, so that the depth of a
//! grammar's recursion is bounded by memory rather than by the call stack.
use vstd::prelude::*;

use crate::grammar::{Grammar, Rules};
use crate::input::{line_col, CharsInput, Input};
use crate::result::{
    err_pos, err_same, lemma_values_view, same_error, value_view, values_view, ParseError, ParseValue, Token,
    ValueModel,
};
use crate::rule::{texts, RulePart, RuleTree};

verus! {

/// The characters of `chars` from `pos` match `lit` up to (not including)
/// the returned offset, which is `lit`'s length when all of it matches.
pub open spec fn mismatch(chars: Seq<char>, pos: int, lit: Seq<char>, k: int) -> int
    decreases lit.len() - k,
{
    if k >= lit.len() || k < 0 {
        k
    } else if pos + k < chars.len() && chars[pos + k] == lit[k] {
        mismatch(chars, pos, lit, k + 1)
    } else {
        k
    }
}

/// `lit` stands in `chars` at `pos`.
pub open spec fn lit_at(chars: Seq<char>, pos: int, lit: Seq<char>) -> bool {
    mismatch(chars, pos, lit, 0) == lit.len()
}

/// The index of the first literal of `lits` that stands at `pos`.
pub open spec fn first_at(chars: Seq<char>, pos: int, lits: Seq<Seq<char>>, j: int) -> Option<int>
    decreases lits.len() - j,
{
    if j >= lits.len() || j < 0 {
        None
    } else if lit_at(chars, pos, lits[j]) {
        Some(j)
    } else {
        first_at(chars, pos, lits, j + 1)
    }
}

/// The length of the shortest literal; 0 for none.
pub open spec fn min_len(lits: Seq<Seq<char>>) -> nat
    decreases lits.len(),
{
    if lits.len() == 0 {
        0
    } else if lits.len() == 1 {
        lits[0].len()
    } else {
        let m = min_len(lits.drop_last());
        if lits.last().len() < m {
            lits.last().len()
        } else {
            m
        }
    }
}

/// A frame: the sibling list being tried, which of them, at which input
/// position, and how deep in rule calls.
#[derive(Clone, Copy)]
pub struct Frame<'g, 'i> {
    pub depth: usize,
    pub rule: usize,
    pub trees: &'g Vec<RuleTree>,
    pub n: usize,
    pub input: Input<'i>,
}

/// A frame as a mathematical value.
pub struct FrameModel {
    pub depth: nat,
    pub rule: nat,
    pub trees: Seq<RuleTree>,
    pub n: nat,
    pub pos: nat,
}

impl<'g, 'i> View for Frame<'g, 'i> {
    type V = FrameModel;

    open spec fn view(&self) -> FrameModel {
        FrameModel {
            depth: self.depth as nat,
            rule: self.rule as nat,
            trees: self.trees@,
            n: self.n as nat,
            pos: self.input.pos as nat,
        }
    }
}

/// The state of a parse as a mathematical value: the frames, the values
/// each buffer holds, and the errors of the failures that got furthest so
/// far.
pub struct Machine {
    pub frames: Seq<FrameModel>,
    pub bufs: Seq<Seq<ValueModel>>,
    pub errors: Seq<ParseError>,
}

/// Frames go one call deeper at a time, and only above a frame that stands
/// at a call; there is one buffer per depth.
pub open spec fn machine_wf(g: Grammar, chars: Seq<char>, m: Machine) -> bool {
    &&& m.frames.len() > 0
    &&& m.frames[0].depth == 0
    &&& forall|i: int| 0 <= i < m.frames.len() ==> (#[trigger] m.frames[i]).rule < g.names@.len() && m.frames[i].pos <= chars.len()
    &&& forall|i: int|
        0 < i < m.frames.len() ==> {
            let a = m.frames[i - 1];
            let b = #[trigger] m.frames[i];
            b.depth == a.depth || (b.depth == a.depth + 1 && calls_at(a))
        }
    &&& m.bufs.len() == m.frames.last().depth + 1
}

/// The frame stands at a rule call or at the left-recursion marker.
pub open spec fn calls_at(f: FrameModel) -> bool {
    f.n < f.trees.len() && f.trees[f.n as int] is Part && (f.trees[f.n as int]->Part_part is NonTerm
        || f.trees[f.n as int]->Part_part is Recurse)
}

/// Adds a failure to the furthest ones: a failure further on replaces them,
/// one as far is added unless the same is there, one behind is dropped.
pub open spec fn record(errs: Seq<ParseError>, e: ParseError) -> Seq<ParseError> {
    if errs.len() == 0 || err_pos(e) > err_pos(errs[0]) {
        seq![e]
    } else if err_pos(e) == err_pos(errs[0]) {
        if exists|i: int| 0 <= i < errs.len() && err_same(#[trigger] errs[i], e) {
            errs
        } else {
            errs.push(e)
        }
    } else {
        errs
    }
}

/// Adds `e` to the furthest failures.
pub fn record_error(errs: &mut Vec<ParseError>, e: ParseError)
    ensures
        final(errs)@ == record(old(errs)@, e),
{
    if errs.len() == 0 {
        errs.push(e);
        assert(final(errs)@ =~= seq![e]);
        return;
    }
    let p0 = error_pos(&errs[0]);
    let p = error_pos(&e);
    if p > p0 {
        errs.clear();
        errs.push(e);
        assert(final(errs)@ =~= seq![e]);
    } else if p == p0 {
        let mut i: usize = 0;
        while i < errs.len()
            invariant
                i <= errs@.len(),
                errs@ == old(errs)@,
                errs@.len() > 0,
                p as int == err_pos(e),
                p0 as int == err_pos(old(errs)@[0]),
                p == p0,
                forall|j: int| 0 <= j < i ==> !err_same(#[trigger] errs@[j], e),
            decreases errs.len() - i,
        {
            if same_error(&errs[i], &e) {
                assert(err_same(errs@[i as int], e));
                return;
            }
            i = i + 1;
        }
        errs.push(e);
    }
}

fn error_pos(e: &ParseError) -> (r: usize)
    ensures
        r as int == err_pos(*e),
{
    match e {
        ParseError::UnexpectedChar { pos, .. } => *pos,
        ParseError::UnexpectedToken { pos, .. } => *pos,
        _ => 0,
    }
}

/// How a step of the parse ends.
pub enum Outcome {
    /// The parse goes on from this state.
    Running(Machine),
    /// The start rule matched with this value; the input was read up to
    /// this position.
    Done(nat, ValueModel),
    /// Every alternative failed; these are the failures that got furthest.
    Failed(Seq<ParseError>),
    /// The parse called a rule that the grammar does not define.
    Aborted(ParseError),
    /// The action of rule `rule` (an index into the grammar), entered at
    /// `pos`, refused its values with the message `msg`.
    Refused(nat, nat, Seq<char>),
}

/// The error of a literal that does not stand at the frame's position.
pub open spec fn term_error(rule: String, chars: Seq<char>, pos: nat, lit: Seq<char>) -> ParseError {
    let p = pos + mismatch(chars, pos as int, lit, 0);
    ParseError::UnexpectedChar {
        current_rule: rule,
        char: if p < chars.len() {
            Some(chars[p])
        } else {
            None
        },
        pos: p as usize,
        row: line_col(chars, p as nat).0 as usize,
        col: line_col(chars, p as nat).1 as usize,
    }
}

/// The error of a negative lookahead at the frame's position, if it fails:
/// a forbidden literal stands there, or the input is too short.
pub open spec fn not_error(rule: String, chars: Seq<char>, pos: nat, v: Seq<String>) -> Option<ParseError> {
    match first_at(chars, pos as int, texts(v), 0) {
        Some(j) => Some(
            ParseError::UnexpectedToken {
                current_rule: rule,
                token: v[j],
                pos: pos as usize,
                row: line_col(chars, pos).0 as usize,
                col: line_col(chars, pos).1 as usize,
            },
        ),
        None => if pos + min_len(texts(v)) > chars.len() {
            Some(
                ParseError::UnexpectedChar {
                    current_rule: rule,
                    char: None,
                    pos: chars.len() as usize,
                    row: line_col(chars, chars.len()).0 as usize,
                    col: line_col(chars, chars.len()).1 as usize,
                },
            )
        } else {
            None
        },
    }
}

/// The frame goes on after a matched symbol: a frame on the continuations
/// at the new position, and the matched token `v` in the buffer.
pub open spec fn advance(m: Machine, nexts: Seq<RuleTree>, pos: nat, v: ValueModel) -> Machine {
    let f = m.frames.last();
    Machine {
        frames: m.frames.push(FrameModel { depth: f.depth, rule: f.rule, trees: nexts, n: 0, pos }),
        bufs: m.bufs.update(m.bufs.len() - 1, m.bufs.last().push(v)),
        ..m
    }
}

/// A call: a frame one deeper on the alternatives of rule `r` from the
/// `n`-th, with an empty buffer.
pub open spec fn call(g: Grammar, m: Machine, r: nat, n: nat) -> Machine {
    let f = m.frames.last();
    Machine {
        frames: m.frames.push(
            FrameModel { depth: f.depth + 1, rule: r, trees: g.forests@[r as int]@, n, pos: f.pos },
        ),
        bufs: m.bufs.push(seq![]),
        ..m
    }
}

/// The frames without the top run of frames at depth `d`.
pub open spec fn strip(frames: Seq<FrameModel>, d: nat) -> Seq<FrameModel>
    decreases frames.len(),
{
    if frames.len() > 0 && frames.last().depth == d {
        strip(frames.drop_last(), d)
    } else {
        frames
    }
}

/// A rule's value `v` is ready (its buffer already taken): at depth 0 the
/// parse is done; otherwise the rule's frames go and its caller goes on
/// after the call, with the value in its buffer.  After a left-recursive
/// call the caller tries to grow the value, one deeper, with the value as
/// the first in a buffer of its own.
pub open spec fn end(m: Machine, at: Option<nat>, v: ValueModel) -> Outcome {
    let top = m.frames.last();
    let pos = match at {
        Some(p) => p,
        None => top.pos,
    };
    if top.depth == 0 {
        Outcome::Done(pos, v)
    } else {
        let fs = strip(m.frames, top.depth);
        let nt = fs.last();
        let c = m.bufs;
        if nt.trees[nt.n as int]->Part_part is Recurse {
            Outcome::Running(
                Machine {
                    frames: fs.push(
                        FrameModel {
                            depth: nt.depth + 1,
                            rule: nt.rule,
                            trees: nt.trees[nt.n as int]->Part_nexts@,
                            n: 0,
                            pos,
                        },
                    ),
                    bufs: c.drop_last().push(seq![]).push(c.last().push(v)),
                    ..m
                },
            )
        } else {
            Outcome::Running(
                Machine {
                    frames: fs.push(
                        FrameModel {
                            depth: nt.depth,
                            rule: nt.rule,
                            trees: nt.trees[nt.n as int]->Part_nexts@,
                            n: 0,
                            pos,
                        },
                    ),
                    bufs: c.update(c.len() - 1, c.last().push(v)),
                    ..m
                },
            )
        }
    }
}

/// The frame stands at the left-recursion marker.
pub open spec fn at_recurse(f: FrameModel) -> bool {
    f.n < f.trees.len() && f.trees[f.n as int] is Part && f.trees[f.n as int]->Part_part is Recurse
}

/// Backtracking after a failure.  A frame with an untried sibling tries it;
/// an exhausted frame goes, taking with it the value it had added to its
/// buffer, or its whole buffer when it was the first frame of a call.  A
/// frame at the left-recursion marker that gets back a grown value ends its
/// rule with that value, at the position where the failed growth started;
/// if the base alternatives gave no value, the rule fails.  `last` holds
/// the values that the last removal took, `at` where the removed frame
/// stood.
pub open spec fn unwind(m: Machine, last: Option<Seq<ValueModel>>, at: Option<nat>) -> Outcome
    decreases m.frames.len(),
{
    if m.frames.len() == 0 {
        Outcome::Failed(m.errors)
    } else {
        let top = m.frames.last();
        if at_recurse(top) && (last matches Some(l) && l.len() > 0) {
            end(Machine { bufs: m.bufs.drop_last(), ..m }, at, last->0[0])
        } else if !at_recurse(top) && top.n + 1 < top.trees.len() {
            Outcome::Running(
                Machine { frames: m.frames.update(m.frames.len() - 1, FrameModel { n: top.n + 1, ..top }), ..m },
            )
        } else {
            let fs = m.frames.drop_last();
            if fs.len() == 0 {
                Outcome::Failed(m.errors)
            } else if fs.last().depth == top.depth {
                let b = m.bufs.last();
                unwind(
                    Machine {
                        frames: fs,
                        bufs: if b.len() > 0 {
                            m.bufs.update(m.bufs.len() - 1, b.drop_last())
                        } else {
                            m.bufs
                        },
                        ..m
                    },
                    if b.len() > 0 {
                        Some(seq![b.last()])
                    } else {
                        None
                    },
                    Some(top.pos),
                )
            } else {
                unwind(Machine { frames: fs, bufs: m.bufs.drop_last(), ..m }, Some(m.bufs.last()), Some(top.pos))
            }
        }
    }
}

/// A failure, with its error if it has one.
pub open spec fn fail(m: Machine, e: Option<ParseError>) -> Outcome {
    let errors = match e {
        Some(e) => record(m.errors, e),
        None => m.errors,
    };
    unwind(Machine { errors, ..m }, None, None)
}

/// The index under which the grammar defines `k`.
pub open spec fn rule_index(g: Grammar, k: Seq<char>) -> nat {
    (choose|i: int| g.defines(k, i)) as nat
}

/// The value of a rule without an action: its one value, or the list of
/// its values.
pub open spec fn reduce(b: Seq<ValueModel>) -> ValueModel {
    if b.len() == 1 {
        b[0]
    } else {
        ValueModel::List(b)
    }
}

/// What the actions do: action `a` makes of the values either a value or
/// a refusal with a message.
pub type ActionsModel = spec_fn(usize, Seq<ValueModel>) -> Result<ValueModel, Seq<char>>;

/// One step of the parse: the top frame tries its current alternative.  At
/// the end of an alternative with an action, the action gets the values of
/// the rule's buffer, in order; its value ends the rule, its refusal ends
/// the parse.
pub open spec fn step(g: Grammar, chars: Seq<char>, m: Machine, act: ActionsModel) -> Outcome {
    let f = m.frames.last();
    if f.n >= f.trees.len() {
        fail(m, None)
    } else {
        match f.trees[f.n as int] {
            RuleTree::Part { part, nexts } => match part {
                RulePart::Term(lit) => if lit_at(chars, f.pos as int, lit@) {
                    Outcome::Running(advance(m, nexts@, f.pos + lit@.len(), ValueModel::Token(lit@)))
                } else {
                    fail(m, Some(term_error(g.names@[f.rule as int], chars, f.pos, lit@)))
                },
                RulePart::Not(v) => match not_error(g.names@[f.rule as int], chars, f.pos, v@) {
                    Some(e) => fail(m, Some(e)),
                    None => Outcome::Running(
                        advance(
                            m,
                            nexts@,
                            f.pos + min_len(texts(v@)),
                            ValueModel::Token(chars.subrange(f.pos as int, (f.pos + min_len(texts(v@))) as int)),
                        ),
                    ),
                },
                RulePart::NonTerm(name) => if g.has_rule(name@) {
                    Outcome::Running(call(g, m, rule_index(g, name@), 0))
                } else {
                    Outcome::Aborted(ParseError::RuleNotFound { rule_name: name })
                },
                RulePart::Recurse => Outcome::Running(call(g, m, f.rule, 1)),
            },
            RuleTree::End { transformer: None } => end(Machine { bufs: m.bufs.drop_last(), ..m }, None, reduce(m.bufs.last())),
            RuleTree::End { transformer: Some(a) } => match act(a, m.bufs.last()) {
                Ok(v) => end(Machine { bufs: m.bufs.drop_last(), ..m }, None, v),
                Err(msg) => Outcome::Refused(f.rule, entry_pos(m), msg),
            },
        }
    }
}

/// The state of the parse after at most `fuel` steps.
pub open spec fn run(g: Grammar, chars: Seq<char>, m: Machine, fuel: nat, act: ActionsModel) -> Outcome
    decreases fuel,
{
    if fuel == 0 {
        Outcome::Running(m)
    } else {
        match step(g, chars, m, act) {
            Outcome::Running(m2) => run(g, chars, m2, (fuel - 1) as nat, act),
            o => o,
        }
    }
}

/// The state before the first step: one frame on the start rule's
/// alternatives at position 0.
pub open spec fn start_machine(g: Grammar, r: nat, pos: nat) -> Machine {
    Machine {
        frames: seq![FrameModel { depth: 0, rule: r, trees: g.forests@[r as int]@, n: 0, pos }],
        bufs: seq![seq![]],
        errors: seq![],
    }
}

/// Like `machine_wf`, but with the buffer of the top frame's rule taken.
pub open spec fn machine_ready(g: Grammar, chars: Seq<char>, m: Machine) -> bool {
    machine_wf(g, chars, Machine { bufs: m.bufs.push(seq![]), ..m })
}

/// The parse in progress: frames and value buffers on heap stacks, and the
/// failures that got furthest.
pub struct Parser<'g, 'i> {
    pub frames: Vec<Frame<'g, 'i>>,
    pub buffers: Vec<Vec<ParseValue>>,
    pub errors: Vec<ParseError>,
}

pub open spec fn frame_models<'g, 'i>(v: Seq<Frame<'g, 'i>>) -> Seq<FrameModel> {
    v.map_values(|f: Frame<'g, 'i>| f@)
}

pub open spec fn buffer_views(v: Seq<Vec<ParseValue>>) -> Seq<Seq<ValueModel>> {
    v.map_values(|b: Vec<ParseValue>| values_view(b@))
}

pub proof fn lemma_values_push(b: Seq<ParseValue>, v: ParseValue)
    ensures
        values_view(b.push(v)) == values_view(b).push(value_view(v)),
{
    lemma_values_view(b);
    lemma_values_view(b.push(v));
    assert(values_view(b.push(v)) =~= values_view(b).push(value_view(v)));
}

pub proof fn lemma_values_drop_last(b: Seq<ParseValue>)
    requires
        b.len() > 0,
    ensures
        values_view(b.drop_last()) == values_view(b).drop_last(),
        values_view(b).last() == value_view(b.last()),
{
    lemma_values_view(b);
    lemma_values_view(b.drop_last());
    assert(values_view(b.drop_last()) =~= values_view(b).drop_last());
}

impl<'g, 'i> View for Parser<'g, 'i> {
    type V = Machine;

    open spec fn view(&self) -> Machine {
        Machine {
            frames: frame_models(self.frames@),
            bufs: buffer_views(self.buffers@),
            errors: self.errors@,
        }
    }
}

/// Every frame reads `chars` and knows its line and column.
pub open spec fn inputs_ok<'g, 'i>(v: Seq<Frame<'g, 'i>>, chars: Seq<char>) -> bool {
    forall|i: int| 0 <= i < v.len() ==> (#[trigger] v[i]).input.wf() && v[i].input.chars@ == chars
}

/// Once the run of frames at the top depth has gone, a frame that stands at
/// a call is left on top.
pub proof fn lemma_strip_wf(g: Grammar, chars: Seq<char>, m: Machine)
    requires
        machine_ready(g, chars, m),
        m.frames.last().depth > 0,
    ensures
        strip(m.frames, m.frames.last().depth).len() > 0,
        strip(m.frames, m.frames.last().depth) == m.frames.take(strip(m.frames, m.frames.last().depth).len() as int),
        strip(m.frames, m.frames.last().depth).last().depth + 1 == m.frames.last().depth,
        calls_at(strip(m.frames, m.frames.last().depth).last()),
{
    let d = m.frames.last().depth;
    lemma_strip_shape(m.frames, d, m.frames.len() as int);
}

pub proof fn lemma_strip_len(frames: Seq<FrameModel>, d: nat)
    ensures
        strip(frames, d).len() <= frames.len(),
    decreases frames.len(),
{
    if frames.len() > 0 && frames.last().depth == d {
        lemma_strip_len(frames.drop_last(), d);
    }
}

proof fn lemma_strip_shape(frames: Seq<FrameModel>, d: nat, k: int)
    requires
        0 < k <= frames.len(),
        frames[0].depth == 0,
        d > 0,
        forall|i: int| k <= i < frames.len() ==> (#[trigger] frames[i]).depth == d,
        frames[k - 1].depth == d,
        forall|i: int|
            0 < i < frames.len() ==> {
                let a = frames[i - 1];
                let b = #[trigger] frames[i];
                b.depth == a.depth || (b.depth == a.depth + 1 && calls_at(a))
            },
    ensures
        strip(frames.take(k), d).len() > 0,
        strip(frames, d) == strip(frames.take(k), d),
        strip(frames, d) == frames.take(strip(frames, d).len() as int),
        strip(frames, d).last().depth + 1 == d,
        calls_at(strip(frames, d).last()),
    decreases frames.len(), k,
{
    if k < frames.len() {
        assert(frames.drop_last().take(k) =~= frames.take(k));
        assert(frames.last() == frames[frames.len() - 1]);
        lemma_strip_shape(frames.drop_last(), d, k);
        let l = strip(frames, d).len() as int;
        lemma_strip_len(frames.drop_last(), d);
        assert(frames.drop_last().take(l) =~= frames.take(l));
    } else {
        assert(frames.take(k) =~= frames);
        if k == 1 {
            assert(false);
        } else {
            let a = frames[k - 2];
            if a.depth == d {
                assert(frames.drop_last().take(k - 1) =~= frames.take(k - 1));
                lemma_strip_shape(frames.drop_last(), d, k - 1);
                assert(frames.take(k - 1) =~= frames.drop_last());
                let l = strip(frames, d).len() as int;
                lemma_strip_len(frames.drop_last(), d);
                assert(frames.drop_last().take(l) =~= frames.take(l));
            } else {
                assert(frames.drop_last().last() == a);
                assert(strip(frames.drop_last(), d) == frames.drop_last());
                assert(frames.take(k - 1) =~= frames.drop_last());
            }
        }
    }
}

/// The errors are all of failed matches.
pub open spec fn match_errors(errs: Seq<ParseError>) -> bool {
    forall|i: int| 0 <= i < errs.len() ==> (#[trigger] errs[i] is UnexpectedChar || errs[i] is UnexpectedToken)
}

pub open spec fn pos_of<'i>(at: Option<Input<'i>>) -> Option<nat> {
    match at {
        Some(a) => Some(a.pos as nat),
        None => None,
    }
}

impl<'g, 'i> Parser<'g, 'i> {
    /// The state is one that the parse can reach.
    pub open spec fn inv(&self, g: Grammar, chars: Seq<char>) -> bool {
        &&& machine_wf(g, chars, self@)
        &&& match_errors(self.errors@)
        &&& inputs_ok(self.frames@, chars)
        &&& chars.len() < usize::MAX
    }

    /// As `inv`, with the buffer of the top frame's rule taken.
    pub open spec fn ready(&self, g: Grammar, chars: Seq<char>) -> bool {
        &&& machine_ready(g, chars, self@)
        &&& match_errors(self.errors@)
        &&& inputs_ok(self.frames@, chars)
        &&& chars.len() < usize::MAX
    }

    /// Adds `v` to the top buffer.
    fn push_value(&mut self, v: ParseValue)
        requires
            old(self).buffers@.len() > 0,
        ensures
            final(self).frames@ == old(self).frames@,
            final(self).errors@ == old(self).errors@,
            final(self)@.bufs == old(self)@.bufs.update(
                old(self)@.bufs.len() - 1,
                old(self)@.bufs.last().push(value_view(v)),
            ),
    {
        let ghost vv = value_view(v);
        let mut b = self.buffers.pop().unwrap();
        let ghost b0 = b@;
        b.push(v);
        proof {
            lemma_values_push(b0, v);
        }
        self.buffers.push(b);
        assert(buffer_views(self.buffers@) =~= buffer_views(old(self).buffers@).update(
            old(self)@.bufs.len() - 1,
            old(self)@.bufs.last().push(vv),
        ));
    }

    /// Removes the run of frames at depth `d` from the top.
    fn pop_run(&mut self, Ghost(g): Ghost<Grammar>, Ghost(chars): Ghost<Seq<char>>, d: usize)
        requires
            old(self).ready(g, chars),
            old(self)@.frames.last().depth == d,
            d > 0,
        ensures
            final(self).buffers@ == old(self).buffers@,
            final(self).errors@ == old(self).errors@,
            frame_models(final(self).frames@) == strip(old(self)@.frames, d as nat),
            final(self).frames@ == old(self).frames@.take(final(self).frames@.len() as int),
            0 < final(self).frames@.len() <= old(self).frames@.len(),
            inputs_ok(final(self).frames@, chars),
    {
        let ghost m0 = self@;
        proof {
            lemma_strip_wf(g, chars, m0);
            lemma_strip_len(m0.frames, d as nat);
        }
        let ghost orig = self.frames@;
        let ghost sl = strip(m0.frames, d as nat).len();
        while self.frames[self.frames.len() - 1].depth == d
            invariant
                self.buffers@ == old(self).buffers@,
                self.errors@ == old(self).errors@,
                m0 == old(self)@,
                orig == old(self).frames@,
                0 < sl <= self.frames@.len() <= orig.len(),
                self.frames@ == orig.take(self.frames@.len() as int),
                strip(frame_models(self.frames@), d as nat) == strip(m0.frames, d as nat),
                m0.frames == frame_models(orig),
                sl == strip(m0.frames, d as nat).len(),
                strip(m0.frames, d as nat) == m0.frames.take(sl as int),
            decreases self.frames.len(),
        {
            let ghost before = self.frames@;
            assert(frame_models(before).last() == before.last()@);
            self.frames.pop();
            assert(frame_models(self.frames@) =~= frame_models(before).drop_last());
            assert(self.frames@ =~= orig.take(self.frames@.len() as int));
            proof {
                if self.frames@.len() < sl {
                    lemma_strip_len(frame_models(self.frames@), d as nat);
                    assert(false);
                }
            }
        }
        assert(frame_models(self.frames@).last() == self.frames@.last()@);
        assert(inputs_ok(self.frames@, chars)) by {
            assert forall|i: int| 0 <= i < self.frames@.len() implies (#[trigger] self.frames@[i]).input.wf()
                && self.frames@[i].input.chars@ == chars by {
                assert(self.frames@[i] == orig[i]);
            }
        }
    }

    /// Ends the top frame's rule with the value `v` (see `end`).
    #[verifier::rlimit(60)]
    fn end_rule(&mut self, Ghost(g): Ghost<Grammar>, Ghost(chars): Ghost<Seq<char>>, v: ParseValue, at: Option<Input<'i>>) -> (r: Option<(ParseValue, Input<'i>)>)
        requires
            old(self).ready(g, chars),
            at matches Some(a) ==> a.wf() && a.chars@ == chars,
        ensures
            match end(old(self)@, pos_of(at), value_view(v)) {
                Outcome::Done(p, x) => r matches Some((w, i)) && value_view(w) == x && i.pos == p && i.wf()
                    && i.chars@ == chars,
                Outcome::Running(m) => r is None && final(self)@ == m && final(self).inv(g, chars),
                _ => false,
            },
    {
        let ghost m0 = self@;
        let ghost vv = value_view(v);
        let top = self.frames[self.frames.len() - 1];
        assert(m0.frames.last() == top@);
        assert(inputs_ok(self.frames@, chars) ==> self.frames@[self.frames@.len() - 1].input.wf());
        let input = match at {
            Some(a) => a,
            None => top.input,
        };
        if top.depth == 0 {
            return Some((v, input));
        }
        let d = top.depth;
        self.pop_run(Ghost(g), Ghost(chars), d);
        let ghost fs = frame_models(self.frames@);
        proof {
            lemma_strip_wf(g, chars, m0);
            assert(m0.bufs.push(seq![]).len() == d + 1);
        }
        let nt = self.frames[self.frames.len() - 1];
        assert(fs.last() == nt@);
        match &nt.trees[nt.n] {
            RuleTree::Part { part: RulePart::Recurse, nexts } => {
                self.frames.push(Frame { depth: nt.depth + 1, rule: nt.rule, trees: nexts, n: 0, input });
                assert(self.buffers@.len() == m0.bufs.len());
                let last = self.buffers.len() - 1;
                self.buffers.insert(last, Vec::new());
                let ghost c = m0.bufs;
                assert(values_view(Seq::<ParseValue>::empty()) =~= Seq::<ValueModel>::empty());
                assert(buffer_views(self.buffers@) =~= c.drop_last().push(seq![]).push(c.last()));
                self.push_value(v);
                proof {
                    assert(frame_models(self.frames@) =~= fs.push(self.frames@.last()@));
                    assert(self@.frames.take(fs.len() as int) =~= fs);
                    assert(self@.bufs =~= c.drop_last().push(seq![]).push(c.last().push(vv)));
                    lemma_wf_prefix_push(g, chars, m0.frames, fs, self@);
                }
                None
            },
            RuleTree::Part { part: _, nexts } => {
                self.frames.push(Frame { depth: nt.depth, rule: nt.rule, trees: nexts, n: 0, input });
                self.push_value(v);
                proof {
                    assert(frame_models(self.frames@) =~= fs.push(self.frames@.last()@));
                    assert(self@.frames.take(fs.len() as int) =~= fs);
                    lemma_wf_prefix_push(g, chars, m0.frames, fs, self@);
                }
                None
            },
            RuleTree::End { .. } => {
                assert(false);
                None
            },
        }
    }
}

/// A frame is never deeper than the number of frames below it.
pub proof fn lemma_depth_bound(g: Grammar, chars: Seq<char>, m: Machine, i: int)
    requires
        machine_wf(g, chars, m),
        0 <= i < m.frames.len(),
    ensures
        m.frames[i].depth <= i,
    decreases i,
{
    if i > 0 {
        lemma_depth_bound(g, chars, m, i - 1);
        let b = m.frames[i];
    }
}

/// A prefix of well-formed frames with one frame pushed keeps the frames
/// well formed when the new frame goes one deeper only above a call.
pub proof fn lemma_wf_prefix_push(g: Grammar, chars: Seq<char>, all: Seq<FrameModel>, fs: Seq<FrameModel>, m: Machine)
    requires
        all.len() > 0,
        all[0].depth == 0,
        forall|i: int| 0 <= i < all.len() ==> (#[trigger] all[i]).rule < g.names@.len() && all[i].pos <= chars.len(),
        forall|i: int|
            0 < i < all.len() ==> {
                let a = all[i - 1];
                let b = #[trigger] all[i];
                b.depth == a.depth || (b.depth == a.depth + 1 && calls_at(a))
            },
        0 < fs.len() <= all.len(),
        fs == all.take(fs.len() as int),
        m.frames.len() == fs.len() + 1,
        m.frames.take(fs.len() as int) == fs,
        m.frames.last().rule < g.names@.len(),
        m.frames.last().pos <= chars.len(),
        m.frames.last().depth == fs.last().depth || (m.frames.last().depth == fs.last().depth + 1 && calls_at(fs.last())),
        m.bufs.len() == m.frames.last().depth + 1,
    ensures
        machine_wf(g, chars, m),
{
    assert forall|i: int| 0 <= i < m.frames.len() implies (#[trigger] m.frames[i]).rule < g.names@.len() && m.frames[i].pos <= chars.len() by {
        if i < fs.len() {
            assert(m.frames[i] == m.frames.take(fs.len() as int)[i]);
            assert(fs[i] == all[i]);
        }
    }
    assert forall|i: int| 0 < i < m.frames.len() implies {
        let a = m.frames[i - 1];
        let b = #[trigger] m.frames[i];
        b.depth == a.depth || (b.depth == a.depth + 1 && calls_at(a))
    } by {
        assert(m.frames[i - 1] == m.frames.take(fs.len() as int)[i - 1]);
        if i < fs.len() {
            assert(m.frames[i] == m.frames.take(fs.len() as int)[i]);
            assert(fs[i] == all[i]);
            assert(fs[i - 1] == all[i - 1]);
        }
    }
    assert(m.frames[0] == fs[0]);
}

pub open spec fn values_of(last: Option<Vec<ParseValue>>) -> Option<Seq<ValueModel>> {
    match last {
        Some(b) => Some(values_view(b@)),
        None => None,
    }
}

fn is_at_recurse(f: &Frame) -> (r: bool)
    ensures
        r == at_recurse(f@),
{
    if f.n < f.trees.len() {
        match &f.trees[f.n] {
            RuleTree::Part { part: RulePart::Recurse, .. } => true,
            _ => false,
        }
    } else {
        false
    }
}

/// Dropping the top frame keeps the frames well formed, with one buffer
/// less when the frame below is a call shallower.
pub proof fn lemma_wf_pop(g: Grammar, chars: Seq<char>, m: Machine)
    requires
        machine_wf(g, chars, m),
        m.frames.len() > 1,
    ensures
        m.frames.drop_last().last().depth == m.frames.last().depth
            ==> machine_wf(g, chars, Machine { frames: m.frames.drop_last(), ..m }),
        m.frames.drop_last().last().depth != m.frames.last().depth ==> m.frames.drop_last().last().depth
            + 1 == m.frames.last().depth && machine_wf(
            g,
            chars,
            Machine { frames: m.frames.drop_last(), bufs: m.bufs.drop_last(), ..m },
        ),
{
    let fs = m.frames.drop_last();
    assert(m.frames[m.frames.len() - 1] == m.frames.last());
    assert(fs.last() == m.frames[m.frames.len() - 2]);
    assert forall|i: int| 0 < i < fs.len() implies {
        let a = fs[i - 1];
        let b = #[trigger] fs[i];
        b.depth == a.depth || (b.depth == a.depth + 1 && calls_at(a))
    } by {
        assert(fs[i] == m.frames[i]);
        assert(fs[i - 1] == m.frames[i - 1]);
    }
    assert forall|i: int| 0 <= i < fs.len() implies (#[trigger] fs[i]).rule < g.names@.len() && fs[i].pos <= chars.len() by {
        assert(fs[i] == m.frames[i]);
    }
}

impl<'g, 'i> Parser<'g, 'i> {
    /// The top frame tries its next sibling, the `next`-th.
    fn next_sibling(&mut self, Ghost(g): Ghost<Grammar>, Ghost(chars): Ghost<Seq<char>>, next: usize)
        requires
            old(self).inv(g, chars),
            next == old(self)@.frames.last().n + 1,
            next < old(self)@.frames.last().trees.len(),
        ensures
            final(self).inv(g, chars),
            final(self)@ == (Machine {
                frames: old(self)@.frames.update(
                    old(self)@.frames.len() - 1,
                    FrameModel { n: old(self)@.frames.last().n + 1, ..old(self)@.frames.last() },
                ),
                ..old(self)@
            }),
    {
        let ghost m1 = self@;
        let top = self.frames[self.frames.len() - 1];
        assert(m1.frames.last() == top@);
        let f = Frame { n: next, ..top };
        let k = self.frames.len() - 1;
        let ghost fr_before = self.frames@;
        self.frames.set(k, f);
        proof {
            let m2 = self@;
            assert(m2.frames =~= m1.frames.update(k as int, FrameModel { n: top@.n + 1, ..top@ }));
            assert(m2.bufs == m1.bufs);
            assert forall|i: int| 0 <= i < m2.frames.len() implies (#[trigger] m2.frames[i]).rule < g.names@.len() && m2.frames[i].pos <= chars.len() by {
                assert(m1.frames[i].rule < g.names@.len());
            }
            assert forall|i: int| 0 < i < m2.frames.len() implies {
                let a = m2.frames[i - 1];
                let b = #[trigger] m2.frames[i];
                b.depth == a.depth || (b.depth == a.depth + 1 && calls_at(a))
            } by {
                assert(m1.frames[i - 1] == m2.frames[i - 1]);
                let b = m1.frames[i];
            }
            assert(inputs_ok(self.frames@, chars)) by {
                assert forall|i: int| 0 <= i < self.frames@.len() implies (#[trigger] self.frames@[i]).input.wf()
                    && self.frames@[i].input.chars@ == chars by {
                    if i != k {
                        assert(self.frames@[i] == fr_before[i]);
                    }
                }
            }
        }
    }

    /// Drops the top frame and what it added to the buffers; returns what
    /// was taken: the frame's value, or the whole buffer of a call.
    fn drop_frame(&mut self, Ghost(g): Ghost<Grammar>, Ghost(chars): Ghost<Seq<char>>) -> (last: Option<Vec<ParseValue>>)
        requires
            old(self).inv(g, chars),
            old(self)@.frames.len() > 1,
        ensures
            final(self).inv(g, chars),
            ({
                let m = old(self)@;
                let top = m.frames.last();
                let fs = m.frames.drop_last();
                let b = m.bufs.last();
                if fs.last().depth == top.depth {
                    &&& final(self)@ == (Machine {
                        frames: fs,
                        bufs: if b.len() > 0 {
                            m.bufs.update(m.bufs.len() - 1, b.drop_last())
                        } else {
                            m.bufs
                        },
                        ..m
                    })
                    &&& values_of(last) == if b.len() > 0 {
                        Some(seq![b.last()])
                    } else {
                        None
                    }
                } else {
                    &&& final(self)@ == (Machine { frames: fs, bufs: m.bufs.drop_last(), ..m })
                    &&& values_of(last) == Some(b)
                }
            }),
    {
        let ghost m1 = self@;
        let ghost fr0 = self.frames@;
        let top = self.frames[self.frames.len() - 1];
        assert(m1.frames.last() == top@);
        self.frames.pop();
        proof {
            lemma_wf_pop(g, chars, m1);
        }
        let below = self.frames[self.frames.len() - 1];
        assert(m1.frames.drop_last().last() == below@);
        let last;
        if below.depth == top.depth {
            let mut b = self.buffers.pop().unwrap();
            let ghost b0 = b@;
            let x = b.pop();
            proof {
                if b0.len() > 0 {
                    lemma_values_drop_last(b0);
                }
            }
            self.buffers.push(b);
            last = match x {
                Some(v) => {
                    let ghost vv = value_view(v);
                    let mut nb = Vec::new();
                    nb.push(v);
                    proof {
                        lemma_values_view(nb@);
                        assert(values_view(nb@) =~= seq![vv]);
                    }
                    Some(nb)
                },
                None => None,
            };
        } else {
            last = self.buffers.pop();
        }
        proof {
            assert(frame_models(self.frames@) =~= m1.frames.drop_last());
            let c = m1.bufs.last();
            if below.depth == top.depth {
                if c.len() > 0 {
                    assert(buffer_views(self.buffers@) =~= m1.bufs.update(m1.bufs.len() - 1, c.drop_last()));
                } else {
                    assert(buffer_views(self.buffers@) =~= m1.bufs);
                }
            } else {
                assert(buffer_views(self.buffers@) =~= m1.bufs.drop_last());
            }
            assert(inputs_ok(self.frames@, chars)) by {
                assert forall|i: int| 0 <= i < self.frames@.len() implies (#[trigger] self.frames@[i]).input.wf()
                    && self.frames@[i].input.chars@ == chars by {
                    assert(self.frames@[i] == fr0[i]);
                }
            }
        }
        last
    }

    /// Backtracks after a failure (see `unwind`): `None` when every
    /// alternative has failed, else whether the parse is done.
    fn backtrack(&mut self, Ghost(g): Ghost<Grammar>, Ghost(chars): Ghost<Seq<char>>) -> (r: Option<Option<(ParseValue, Input<'i>)>>)
        requires
            old(self).inv(g, chars),
        ensures
            match unwind(old(self)@, None, None) {
                Outcome::Failed(errs) => r is None && errs == old(self)@.errors && final(self).errors@ == errs,
                Outcome::Done(p, x) => r matches Some(Some((w, i))) && value_view(w) == x && i.pos == p && i.wf()
                    && i.chars@ == chars,
                Outcome::Running(m) => r matches Some(None) && final(self)@ == m && final(self).inv(g, chars),
                Outcome::Aborted(_) => false,
                Outcome::Refused(..) => false,
            },
    {
        let ghost goal = unwind(old(self)@, None, None);
        let mut last: Option<Vec<ParseValue>> = None;
        let mut at: Option<Input<'i>> = None;
        loop
            invariant
                self.inv(g, chars),
                self.errors@ == old(self).errors@,
                goal == unwind(self@, values_of(last), pos_of(at)),
                goal == unwind(old(self)@, None, None),
                at matches Some(a) ==> a.wf() && a.chars@ == chars,
            decreases self.frames.len(),
        {
            let top = self.frames[self.frames.len() - 1];
            assert(self@.frames.last() == top@);
            assert(self.frames@[self.frames@.len() - 1] == top);
            let rec = is_at_recurse(&top);
            let has_value = match &last {
                Some(b) => b.len() > 0,
                None => false,
            };
            let ghost m1 = self@;
            if rec && has_value {
                let mut b = last.unwrap();
                proof {
                    lemma_values_view(b@);
                }
                let ghost first = values_view(b@)[0];
                let v = b.remove(0);
                assert(value_view(v) == first);
                self.buffers.pop();
                proof {
                    assert(buffer_views(self.buffers@) =~= m1.bufs.drop_last());
                    assert(self@ == Machine { bufs: m1.bufs.drop_last(), ..m1 });
                    assert(m1.bufs.drop_last().push(seq![]).len() == m1.bufs.len());
                    let mr = Machine { bufs: self@.bufs.push(seq![]), ..self@ };
                    assert(mr.frames == m1.frames);
                    assert(machine_wf(g, chars, mr));
                    assert(goal == end(Machine { bufs: m1.bufs.drop_last(), ..m1 }, pos_of(at), first));
                }
                return Some(self.end_rule(Ghost(g), Ghost(chars), v, at));
            }
            if !rec && top.n < top.trees.len() && top.n + 1 < top.trees.len() {
                self.next_sibling(Ghost(g), Ghost(chars), top.n + 1);
                assert(goal == Outcome::Running(self@));
                return Some(None);
            }
            if self.frames.len() == 1 {
                assert(goal == Outcome::Failed(m1.errors));
                return None;
            }
            at = Some(top.input);
            last = self.drop_frame(Ghost(g), Ghost(chars));
        }
    }
}

/// Relies on `String::push`: the character is appended.
#[verifier::external_body]
fn push_char(s: &mut String, c: char)
    ensures
        final(s)@ == old(s)@.push(c),
{
    s.push(c)
}

/// The string of the characters, in order.
fn string_of(cs: &Vec<char>) -> (r: String)
    ensures
        r@ == cs@,
{
    let mut s = String::new();
    let mut i: usize = 0;
    while i < cs.len()
        invariant
            i <= cs@.len(),
            s@ == cs@.take(i as int),
        decreases cs.len() - i,
    {
        push_char(&mut s, cs[i]);
        assert(cs@.take(i + 1) =~= cs@.take(i as int).push(cs@[i as int]));
        i = i + 1;
    }
    assert(cs@.take(cs@.len() as int) =~= cs@);
    s
}

/// Matches the literal `lit` at `at`: the position after it, or the error
/// at the first character that differs.
pub fn match_term<'i>(at: Input<'i>, lit: &String, rule: &String) -> (r: Result<Input<'i>, ParseError>)
    requires
        at.wf(),
    ensures
        lit_at(at.chars@, at.pos as int, lit@) ==> (r matches Ok(i) && i.wf() && i.chars@ == at.chars@
            && i.pos == at.pos + lit@.len()),
        !lit_at(at.chars@, at.pos as int, lit@) ==> r == Err::<Input<'i>, ParseError>(
            term_error(*rule, at.chars@, at.pos as nat, lit@),
        ),
{
    let s = lit.as_str();
    let n = s.unicode_len();
    let ghost chars = at.chars@;
    let mut i = at;
    let mut k: usize = 0;
    while k < n
        invariant
            s@ == lit@,
            n == lit@.len(),
            at.wf(),
            i.wf(),
            i.chars@ == chars,
            chars == at.chars@,
            k <= n,
            i.pos == at.pos + k,
            mismatch(chars, at.pos as int, lit@, 0) == mismatch(chars, at.pos as int, lit@, k as int),
        decreases n - k,
    {
        let c = s.get_char(k);
        let before = i;
        let x = i.next();
        match x {
            Some(y) => {
                if y != c {
                    assert(mismatch(chars, at.pos as int, lit@, k as int) == k);
                    return Err(
                        ParseError::UnexpectedChar {
                            current_rule: rule.clone(),
                            char: Some(y),
                            pos: before.pos,
                            row: before.row,
                            col: before.col,
                        },
                    );
                }
                assert(mismatch(chars, at.pos as int, lit@, k as int) == mismatch(chars, at.pos as int, lit@, k + 1));
                k = k + 1;
            },
            None => {
                assert(mismatch(chars, at.pos as int, lit@, k as int) == k);
                return Err(
                    ParseError::UnexpectedChar {
                        current_rule: rule.clone(),
                        char: None,
                        pos: before.pos,
                        row: before.row,
                        col: before.col,
                    },
                );
            },
        }
    }
    assert(mismatch(chars, at.pos as int, lit@, n as int) == n);
    Ok(i)
}

/// Matches a negative lookahead at `at`: none of `lits` may stand there;
/// then as many characters as the shortest of them has are consumed.
pub fn match_not<'i>(at: Input<'i>, lits: &Vec<String>, rule: &String) -> (r: Result<(Input<'i>, String), ParseError>)
    requires
        at.wf(),
    ensures
        match not_error(*rule, at.chars@, at.pos as nat, lits@) {
            Some(e) => r == Err::<(Input<'i>, String), ParseError>(e),
            None => r matches Ok((i, t)) && i.wf() && i.chars@ == at.chars@ && i.pos == at.pos + min_len(texts(lits@))
                && t@ == at.chars@.subrange(at.pos as int, i.pos as int),
        },
{
    let ghost chars = at.chars@;
    let ghost ts = texts(lits@);
    let mut j: usize = 0;
    while j < lits.len()
        invariant
            at.wf(),
            chars == at.chars@,
            ts == texts(lits@),
            j <= lits@.len(),
            first_at(chars, at.pos as int, ts, 0) == first_at(chars, at.pos as int, ts, j as int),
        decreases lits.len() - j,
    {
        assert(ts[j as int] == lits@[j as int]@);
        match match_term(at, &lits[j], rule) {
            Ok(_) => {
                return Err(
                    ParseError::UnexpectedToken {
                        current_rule: rule.clone(),
                        token: lits[j].clone(),
                        pos: at.pos,
                        row: at.row,
                        col: at.col,
                    },
                );
            },
            Err(_) => {},
        }
        j = j + 1;
    }
    let mut m: usize = 0;
    if lits.len() > 0 {
        m = lits[0].as_str().unicode_len();
        assert(ts.take(1).len() == 1);
        let mut j: usize = 1;
        while j < lits.len()
            invariant
                ts == texts(lits@),
                1 <= j <= lits@.len(),
                m == min_len(ts.take(j as int)),
            decreases lits.len() - j,
        {
            let l = lits[j].as_str().unicode_len();
            assert(ts.take(j + 1).drop_last() =~= ts.take(j as int));
            assert(ts.take(j + 1).last() == lits@[j as int]@);
            if l < m {
                m = l;
            }
            j = j + 1;
        }
        assert(ts.take(lits@.len() as int) =~= ts);
    }
    let mut i = at;
    let mut buf: Vec<char> = Vec::new();
    let mut k: usize = 0;
    while k < m
        invariant
            at.wf(),
            i.wf(),
            i.chars@ == chars,
            chars == at.chars@,
            k <= m,
            m == min_len(ts),
            ts == texts(lits@),
            i.pos == at.pos + k,
            buf@ == chars.subrange(at.pos as int, i.pos as int),
            first_at(chars, at.pos as int, ts, 0) == None::<int>,
        decreases m - k,
    {
        let before = i;
        match i.next() {
            Some(c) => {
                buf.push(c);
                assert(buf@ =~= chars.subrange(at.pos as int, i.pos as int));
                k = k + 1;
            },
            None => {
                return Err(
                    ParseError::UnexpectedChar {
                        current_rule: rule.clone(),
                        char: None,
                        pos: before.pos,
                        row: before.row,
                        col: before.col,
                    },
                );
            },
        }
    }
    Ok((i, string_of(&buf)))
}

/// The position where the top frame's rule was entered: that of the frame
/// below the top run of frames (the call, or the left-recursion marker that
/// grows the rule), or the start for the start rule.
pub open spec fn entry_pos(m: Machine) -> nat {
    let k = strip(m.frames, m.frames.last().depth).len();
    if k > 0 {
        m.frames[k - 1].pos
    } else {
        m.frames[0].pos
    }
}

/// The values an action gets, as mathematical values.
pub type ActionInput = Seq<ValueModel>;

/// What an action makes of its values: a value, or a refusal with a message.
pub type ActionOutput = Result<ValueModel, Seq<char>>;

/// Turns the values of a rule into the rule's value.  The rule's action
/// has the index `action`; the values come in the order matched.
pub trait RuleTransformer {
    /// What action `action` makes of the values: a value, or a refusal
    /// with a message.
    spec fn apply(&self, action: usize, values: ActionInput) -> ActionOutput;

    fn transform(&self, action: usize, values: Vec<ParseValue>) -> (r: Result<ParseValue, String>)
        ensures
            match r {
                Ok(v) => self.apply(action, values_view(values@)) == Ok::<ValueModel, Seq<char>>(value_view(v)),
                Err(e) => self.apply(action, values_view(values@)) == Err::<ValueModel, Seq<char>>(e@),
            },
    ;
}

/// The actions of `actions` as a mathematical function.
pub open spec fn act_of<A: RuleTransformer>(actions: A) -> ActionsModel {
    |a: usize, vs: Seq<ValueModel>| actions.apply(a, vs)
}

/// `e` is the error of the refusal of rule `rule`'s action, entered at
/// `pos`, with the message `msg`.
pub open spec fn refusal(g: Grammar, chars: Seq<char>, rule: nat, pos: nat, msg: Seq<char>, e: ParseError) -> bool {
    e matches ParseError::ActionError { current_rule, pos: p, row, col, error } && current_rule == g.names@[rule as int]
        && p == pos && row == line_col(chars, pos).0 && col == line_col(chars, pos).1 && error@ == msg
}

/// The value of a rule without an action: its one value, or the list of
/// its values.
pub fn reduce_default(values: Vec<ParseValue>) -> (r: ParseValue)
    ensures
        values@.len() == 1 ==> r == values@[0],
        values@.len() != 1 ==> r == ParseValue::List(values),
        value_view(r) == reduce(values_view(values@)),
{
    proof {
        lemma_values_view(values@);
    }
    if values.len() == 1 {
        let mut values = values;
        values.pop().unwrap()
    } else {
        ParseValue::List(values)
    }
}

/// Where a step leaves the parse.
pub enum Status<'i> {
    Running,
    Done(ParseValue, Input<'i>),
    Failed,
    Aborted(ParseError),
    ActionFailed(ParseError),
}

pub proof fn lemma_defines_unique(g: Grammar, k: Seq<char>, i: int, j: int)
    requires
        g.wf(),
        g.defines(k, i),
        g.defines(k, j),
    ensures
        i == j,
{
    if i < j {
        assert(g.names@[i]@ != g.names@[j]@);
    } else if j < i {
        assert(g.names@[j]@ != g.names@[i]@);
    }
}

impl<'g, 'i> Parser<'g, 'i> {
    /// The top frame matched a symbol: a frame on its continuations at `i`,
    /// and `v` in the buffer.
    fn advance(&mut self, Ghost(g): Ghost<Grammar>, Ghost(chars): Ghost<Seq<char>>, nexts: &'g Vec<RuleTree>, i: Input<'i>, v: ParseValue)
        requires
            old(self).inv(g, chars),
            i.wf(),
            i.chars@ == chars,
        ensures
            final(self).inv(g, chars),
            final(self)@ == advance(old(self)@, nexts@, i.pos as nat, value_view(v)),
    {
        let ghost m1 = self@;
        let ghost fr0 = self.frames@;
        let top = self.frames[self.frames.len() - 1];
        assert(m1.frames.last() == top@);
        self.frames.push(Frame { depth: top.depth, rule: top.rule, trees: nexts, n: 0, input: i });
        self.push_value(v);
        proof {
            assert(frame_models(self.frames@) =~= m1.frames.push(self.frames@.last()@));
            assert(self@.frames.take(m1.frames.len() as int) =~= m1.frames);
            assert(m1.frames.take(m1.frames.len() as int) =~= m1.frames);
            lemma_wf_prefix_push(g, chars, m1.frames, m1.frames, self@);
            assert(inputs_ok(self.frames@, chars)) by {
                assert forall|k: int| 0 <= k < self.frames@.len() implies (#[trigger] self.frames@[k]).input.wf()
                    && self.frames@[k].input.chars@ == chars by {
                    if k < fr0.len() {
                        assert(self.frames@[k] == fr0[k]);
                    }
                }
            }
        }
    }

    /// A call from the top frame: a frame one deeper on the alternatives of
    /// rule `r` from the `n`-th, with an empty buffer.
    fn call(&mut self, Ghost(g): Ghost<Grammar>, Ghost(chars): Ghost<Seq<char>>, trees: &'g Vec<RuleTree>, r: usize, n: usize)
        requires
            old(self).inv(g, chars),
            r < g.names@.len(),
            trees@ == g.forests@[r as int]@,
            calls_at(old(self)@.frames.last()),
        ensures
            final(self).inv(g, chars),
            final(self)@ == call(g, old(self)@, r as nat, n as nat),
    {
        let ghost m1 = self@;
        let ghost fr0 = self.frames@;
        let top = self.frames[self.frames.len() - 1];
        assert(m1.frames.last() == top@);
        assert(fr0[fr0.len() - 1] == top);
        proof {
            lemma_depth_bound(g, chars, m1, m1.frames.len() - 1);
        }
        self.frames.push(Frame { depth: top.depth + 1, rule: r, trees, n, input: top.input });
        self.buffers.push(Vec::new());
        proof {
            assert(frame_models(self.frames@) =~= m1.frames.push(self.frames@.last()@));
            assert(values_view(Seq::<ParseValue>::empty()) =~= Seq::<ValueModel>::empty());
            assert(buffer_views(self.buffers@) =~= m1.bufs.push(seq![]));
            assert(self@.frames.take(m1.frames.len() as int) =~= m1.frames);
            assert(m1.frames.take(m1.frames.len() as int) =~= m1.frames);
            lemma_wf_prefix_push(g, chars, m1.frames, m1.frames, self@);
            assert(inputs_ok(self.frames@, chars)) by {
                assert forall|k: int| 0 <= k < self.frames@.len() implies (#[trigger] self.frames@[k]).input.wf()
                    && self.frames@[k].input.chars@ == chars by {
                    if k < fr0.len() {
                        assert(self.frames@[k] == fr0[k]);
                    }
                }
            }
        }
    }

    /// A failure, with its error if it has one (see `fail`).
    fn fail(&mut self, Ghost(g): Ghost<Grammar>, Ghost(chars): Ghost<Seq<char>>, e: Option<ParseError>) -> (r: Status<'i>)
        requires
            old(self).inv(g, chars),
            e matches Some(x) ==> (x is UnexpectedChar || x is UnexpectedToken),
        ensures
            r is Failed ==> match_errors(final(self).errors@),
            match fail(old(self)@, e) {
                Outcome::Failed(errs) => r is Failed && final(self).errors@ == errs,
                Outcome::Done(p, x) => r matches Status::Done(w, i) && value_view(w) == x && i.pos == p && i.wf()
                    && i.chars@ == chars,
                Outcome::Running(m) => r is Running && final(self)@ == m && final(self).inv(g, chars),
                Outcome::Aborted(_) => false,
                Outcome::Refused(..) => false,
            },
    {
        match e {
            Some(e) => {
                let ghost before = self.errors@;
                record_error(&mut self.errors, e);
                assert(match_errors(self.errors@)) by {
                    if self.errors@.len() == 1 && self.errors@[0] == e {
                    } else {
                        assert forall|i: int| 0 <= i < self.errors@.len() implies (#[trigger] self.errors@[i] is UnexpectedChar
                            || self.errors@[i] is UnexpectedToken) by {
                            if i < before.len() {
                                assert(self.errors@[i] == before[i]);
                            }
                        }
                    }
                }
            },
            None => {},
        }
        match self.backtrack(Ghost(g), Ghost(chars)) {
            None => Status::Failed,
            Some(None) => Status::Running,
            Some(Some((v, i))) => Status::Done(v, i),
        }
    }

    /// The index of the first frame of the top run.
    fn run_start(&self) -> (k: usize)
        requires
            self@.frames.len() > 0,
        ensures
            k == strip(self@.frames, self@.frames.last().depth).len(),
            k < self@.frames.len(),
    {
        let ghost fm = self@.frames;
        let d = self.frames[self.frames.len() - 1].depth;
        assert(fm.last() == self.frames@[self.frames@.len() - 1]@);
        let mut j = self.frames.len();
        assert(fm.take(j as int) =~= fm);
        while j > 0 && self.frames[j - 1].depth == d
            invariant
                j <= fm.len(),
                fm == self@.frames,
                fm.len() == self.frames@.len(),
                d == fm.last().depth,
                strip(fm, d as nat) == strip(fm.take(j as int), d as nat),
            decreases j,
        {
            assert(fm.take(j as int).drop_last() =~= fm.take(j - 1));
            assert(fm.take(j as int).last() == fm[j - 1]);
            assert(fm[j - 1] == self.frames@[j - 1]@);
            j = j - 1;
        }
        proof {
            if j > 0 {
                assert(fm.take(j as int).last() == fm[j - 1]);
                assert(fm[j - 1] == self.frames@[j - 1]@);
            }
        }
        if j == self.frames.len() {
            assert(fm.last() == self.frames@[j - 1]@);
            assert(false);
        }
        j
    }

    /// Ends the top frame's rule (its buffer taken) with what its action
    /// gave: the error of a refusing action, at the position where the rule
    /// was entered, or the rule's value (see `end`).
    pub fn finish_rule(&mut self, g: &'g Grammar, Ghost(chars): Ghost<Seq<char>>, result: Result<ParseValue, String>) -> (r: Status<'i>)
        requires
            old(self).ready(*g, chars),
        ensures
            result is Err ==> (r matches Status::ActionFailed(e) && refusal(
                *g,
                chars,
                old(self)@.frames.last().rule,
                entry_pos(old(self)@),
                result->Err_0@,
                e,
            )),
            result is Ok ==> match end(old(self)@, None, value_view(result->Ok_0)) {
                Outcome::Done(p, x) => r matches Status::Done(w, i) && value_view(w) == x && i.pos == p && i.wf()
                    && i.chars@ == chars,
                Outcome::Running(m) => r is Running && final(self)@ == m && final(self).inv(*g, chars),
                _ => false,
            },
    {
        match result {
            Err(msg) => {
                let k = self.run_start();
                let top = self.frames[self.frames.len() - 1];
                assert(self@.frames.last() == top@);
                let at = if k > 0 {
                    self.frames[k - 1].input
                } else {
                    self.frames[0].input
                };
                proof {
                    if k > 0 {
                        assert(self@.frames[k - 1] == self.frames@[k - 1]@);
                        assert(self.frames@[k - 1].input.wf());
                    } else {
                        assert(self@.frames[0] == self.frames@[0]@);
                        assert(self.frames@[0].input.wf());
                    }
                }
                Status::ActionFailed(
                    ParseError::ActionError {
                        current_rule: g.names[top.rule].clone(),
                        pos: at.pos,
                        row: at.row,
                        col: at.col,
                        error: msg,
                    },
                )
            },
            Ok(v) => match self.end_rule(Ghost(*g), Ghost(chars), v, None) {
                Some((v, i)) => Status::Done(v, i),
                None => Status::Running,
            },
        }
    }
}

impl<'g, 'i> Parser<'g, 'i> {
    /// A parse of rule `rule` from `input`: one frame on the rule's
    /// alternatives, with an empty buffer.
    pub fn new(g: &'g Grammar, rule: usize, input: Input<'i>) -> (p: Parser<'g, 'i>)
        requires
            g.wf(),
            rule < g.names@.len(),
            input.wf(),
        ensures
            p@ == start_machine(*g, rule as nat, input.pos as nat),
            p.inv(*g, input.chars@),
    {
        let mut frames: Vec<Frame<'g, 'i>> = Vec::new();
        frames.push(Frame { depth: 0, rule, trees: &g.forests[rule], n: 0, input });
        let mut buffers: Vec<Vec<ParseValue>> = Vec::new();
        buffers.push(Vec::new());
        let p = Parser { frames, buffers, errors: Vec::new() };
        proof {
            assert(p@.frames =~= start_machine(*g, rule as nat, input.pos as nat).frames);
            assert(values_view(Seq::<ParseValue>::empty()) =~= Seq::<ValueModel>::empty());
            assert(p@.bufs =~= start_machine(*g, rule as nat, input.pos as nat).bufs);
            assert(p@.errors =~= start_machine(*g, rule as nat, input.pos as nat).errors);
        }
        p
    }

    /// One step of the parse (see `step`); a rule's action is applied by
    /// `actions` when the rule ends.
    pub fn step<A: RuleTransformer>(&mut self, g: &'g Grammar, Ghost(chars): Ghost<Seq<char>>, actions: &A) -> (r: Status<'i>)
        requires
            old(self).inv(*g, chars),
            g.wf(),
        ensures
            match step(*g, chars, old(self)@, act_of(*actions)) {
                Outcome::Running(m) => r is Running && final(self)@ == m && final(self).inv(*g, chars),
                Outcome::Done(p, x) => r matches Status::Done(w, i) && value_view(w) == x && i.pos == p && i.wf()
                    && i.chars@ == chars,
                Outcome::Failed(errs) => r is Failed && final(self).errors@ == errs,
                Outcome::Aborted(e) => r matches Status::Aborted(e2) && e2 == e,
                Outcome::Refused(rule, pos, msg) => r matches Status::ActionFailed(e) && refusal(
                    *g,
                    chars,
                    rule,
                    pos,
                    msg,
                    e,
                ),
            },
            r matches Status::Aborted(e) ==> e is RuleNotFound,
            r is Failed ==> match_errors(final(self).errors@),
    {
        let ghost m0 = self@;
        let top = self.frames[self.frames.len() - 1];
        assert(m0.frames.last() == top@);
        assert(self.frames@[self.frames@.len() - 1] == top);
        assert(top.input.wf() && top.input.chars@ == chars);
        if top.n >= top.trees.len() {
            return self.fail(Ghost(*g), Ghost(chars), None);
        }
        let rule = &g.names[top.rule];
        match &top.trees[top.n] {
            RuleTree::Part { part, nexts } => match part {
                RulePart::Term(lit) => match match_term(top.input, lit, rule) {
                    Ok(i) => {
                        self.advance(Ghost(*g), Ghost(chars), nexts, i, ParseValue::Token(Token(lit.clone())));
                        Status::Running
                    },
                    Err(e) => self.fail(Ghost(*g), Ghost(chars), Some(e)),
                },
                RulePart::Not(lits) => match match_not(top.input, lits, rule) {
                    Ok((i, t)) => {
                        self.advance(Ghost(*g), Ghost(chars), nexts, i, ParseValue::Token(Token(t)));
                        Status::Running
                    },
                    Err(e) => self.fail(Ghost(*g), Ghost(chars), Some(e)),
                },
                RulePart::NonTerm(name) => match g.find(name.as_str()) {
                    Some(j) => {
                        proof {
                            let c = choose|i: int| g.defines(name@, i);
                            lemma_defines_unique(*g, name@, c, j as int);
                        }
                        self.call(Ghost(*g), Ghost(chars), &g.forests[j], j, 0);
                        Status::Running
                    },
                    None => Status::Aborted(ParseError::RuleNotFound { rule_name: name.clone() }),
                },
                RulePart::Recurse => {
                    self.call(Ghost(*g), Ghost(chars), &g.forests[top.rule], top.rule, 1);
                    Status::Running
                },
            },
            RuleTree::End { transformer } => {
                let values = self.buffers.pop().unwrap();
                proof {
                    assert(buffer_views(self.buffers@) =~= m0.bufs.drop_last());
                    assert(self@ == Machine { bufs: m0.bufs.drop_last(), ..m0 });
                    assert(m0.bufs.drop_last().push(seq![]).len() == m0.bufs.len());
                    let mr = Machine { bufs: self@.bufs.push(seq![]), ..self@ };
                    assert(mr.frames == m0.frames);
                    assert(machine_wf(*g, chars, mr));
                }
                match transformer {
                    Some(a) => {
                        let ghost handed = values_view(values@);
                        assert(handed == m0.bufs.last());
                        let result = actions.transform(*a, values);
                        assert(act_of(*actions)(*a, handed) == actions.apply(*a, handed));
                        proof {
                            if result is Ok {
                                assert(act_of(*actions)(*a, m0.bufs.last()) == Ok::<ValueModel, Seq<char>>(
                                    value_view(result->Ok_0),
                                ));
                            } else {
                                assert(act_of(*actions)(*a, m0.bufs.last()) == Err::<ValueModel, Seq<char>>(
                                    result->Err_0@,
                                ));
                            }
                            assert(entry_pos(self@) == entry_pos(m0));
                        }
                        self.finish_rule(g, Ghost(chars), result)
                    },
                    None => self.finish_rule(g, Ghost(chars), Ok(reduce_default(values))),
                }
            },
        }
    }
}

/// The error that a failed parse reports: the one failure that got
/// furthest, or all of them.
pub open spec fn reported(errs: Seq<ParseError>, e: ParseError) -> bool {
    if errs.len() == 1 {
        e == errs[0]
    } else {
        e matches ParseError::MultipleErrors { errors } && errors@ == errs
    }
}

/// The error of a failed parse.
fn report(errors: Vec<ParseError>) -> (e: ParseError)
    ensures
        reported(errors@, e),
        match_errors(errors@) ==> !(e is ActionError),
{
    if errors.len() == 1 {
        let mut errors = errors;
        errors.pop().unwrap()
    } else {
        ParseError::MultipleErrors { errors }
    }
}

/// How many steps a parse may take.
pub const STEP_LIMIT: usize = 4294967295;

/// What a parse returned, against what the parse's steps lead to: a match
/// ends where they end with the value they build, a failure reports the
/// failures that they find or the refusal of an action, and a parse that
/// never ends runs out of steps.
pub open spec fn parse_matches<'i>(
    g: Grammar,
    o: Outcome,
    r: Result<(ParseValue, Input<'i>), ParseError>,
    chars: Seq<char>,
) -> bool {
    match r {
        Ok((v, i)) => o == Outcome::Done(i.pos as nat, value_view(v)) && i.wf() && i.chars@ == chars,
        Err(e) => error_matches(g, o, e, chars),
    }
}

/// The error `e` is the one the parse's steps lead to.
pub open spec fn error_matches(g: Grammar, o: Outcome, e: ParseError, chars: Seq<char>) -> bool {
    ||| o == Outcome::Aborted(e)
    ||| (o matches Outcome::Failed(errs) && reported(errs, e))
    ||| (o matches Outcome::Refused(rule, pos, msg) && refusal(g, chars, rule, pos, msg, e))
    ||| (e == ParseError::StepLimit { steps: STEP_LIMIT } && o is Running)
}

/// The outcome of parsing `chars` from rule `start` with the actions `act`.
pub open spec fn parse_outcome(g: Grammar, start: Seq<char>, chars: Seq<char>, act: ActionsModel) -> Outcome {
    run(g, chars, start_machine(g, rule_index(g, start), 0), STEP_LIMIT as nat, act)
}

/// Parses `chars` from rule `start` of `g`: the value of the first
/// derivation that the ordered choice finds, and where it ends.  Each rule
/// with an action gets its values from the action; an action that refuses
/// stops the parse.
pub fn parse_chars<'g, 'i, A: RuleTransformer>(g: &'g Grammar, start: &str, chars: &'i [char], actions: &A) -> (r: Result<(ParseValue, Input<'i>), ParseError>)
    requires
        g.wf(),
        chars@.len() < usize::MAX,
    ensures
        !g.has_rule(start@) ==> (r matches Err(ParseError::RuleNotFound { rule_name }) && rule_name@ == start@),
        g.has_rule(start@) ==> parse_matches(*g, parse_outcome(*g, start@, chars@, act_of(*actions)), r, chars@),
{
    let idx = match g.find(start) {
        None => {
            return Err(ParseError::RuleNotFound { rule_name: start.to_owned() });
        },
        Some(i) => i,
    };
    proof {
        let c = choose|i: int| g.defines(start@, i);
        lemma_defines_unique(*g, start@, c, idx as int);
        assert(g.has_rule(start@));
    }
    let ghost act = act_of(*actions);
    let ghost goal = parse_outcome(*g, start@, chars@, act);
    let input = Input::new(chars);
    let mut p = Parser::new(g, idx, input);
    let mut fuel: usize = STEP_LIMIT;
    while fuel > 0
        invariant
            g.wf(),
            p.inv(*g, chars@),
            g.has_rule(start@),
            act == act_of(*actions),
            goal == parse_outcome(*g, start@, chars@, act),
            goal == run(*g, chars@, p@, fuel as nat, act),
        decreases fuel,
    {
        match p.step(g, Ghost(chars@), actions) {
            Status::Running => {},
            Status::Done(v, i) => {
                return Ok((v, i));
            },
            Status::Failed => {
                return Err(report(p.errors));
            },
            Status::Aborted(e) => {
                return Err(e);
            },
            Status::ActionFailed(e) => {
                return Err(e);
            },
        }
        fuel = fuel - 1;
    }
    Err(ParseError::StepLimit { steps: STEP_LIMIT })
}

/// The actions of a grammar that names none: any index is refused.
pub struct NoActions;

impl RuleTransformer for NoActions {
    open spec fn apply(&self, action: usize, values: ActionInput) -> ActionOutput {
        Err("the grammar has no actions"@)
    }

    fn transform(&self, action: usize, values: Vec<ParseValue>) -> (r: Result<ParseValue, String>) {
        Err("the grammar has no actions".to_owned())
    }
}

/// What `parse` returned, against what the parse's steps lead to.
pub open spec fn value_matches(g: Grammar, o: Outcome, r: Result<ParseValue, ParseError>, chars: Seq<char>) -> bool {
    match r {
        Ok(v) => o matches Outcome::Done(_, x) && x == value_view(v),
        Err(e) => error_matches(g, o, e, chars),
    }
}

/// The name that `parse_entire` gives the rule of an error on input left
/// over.
pub open spec fn entire_rule() -> Seq<char> {
    "<parse_entire>"@
}

/// What `parse_entire` returned, against what the parse's steps lead to:
/// as `parse`, but a match that leaves input over is an unexpected
/// character where it stops.
pub open spec fn entire_matches(g: Grammar, o: Outcome, r: Result<ParseValue, ParseError>, s: Seq<char>) -> bool {
    match o {
        Outcome::Done(p, x) => if p < s.len() {
            r matches Err(ParseError::UnexpectedChar { current_rule, char, pos, row, col }) && current_rule@
                == entire_rule() && char == Some(s[p as int]) && pos == p && row == line_col(s, p).0 && col
                == line_col(s, p).1
        } else {
            r matches Ok(v) && value_view(v) == x
        },
        _ => value_matches(g, o, r, s) && r is Err,
    }
}

impl Rules {
    /// Parses `input` from rule `start_rule`: the value of the first
    /// derivation that the ordered choice finds.  Input after it is
    /// ignored.
    pub fn parse<A: RuleTransformer>(&self, start_rule: &str, input: &str, actions: &A) -> (r: Result<ParseValue, ParseError>)
        requires
            self.grammar.wf(),
            input@.len() < usize::MAX,
        ensures
            !self.grammar.has_rule(start_rule@) ==> (r matches Err(ParseError::RuleNotFound { rule_name })
                && rule_name@ == start_rule@),
            self.grammar.has_rule(start_rule@) ==> value_matches(
                self.grammar,
                parse_outcome(self.grammar, start_rule@, input@, act_of(*actions)),
                r,
                input@,
            ),
    {
        let text = CharsInput::new(input);
        match parse_chars(&self.grammar, start_rule, text.chars.as_slice(), actions) {
            Ok((v, _)) => Ok(v),
            Err(e) => Err(e),
        }
    }

    /// As `parse`, which it is also called as in a procedural style.
    pub fn parse_proc<A: RuleTransformer>(&self, start_rule: &str, input: &str, actions: &A) -> (r: Result<ParseValue, ParseError>)
        requires
            self.grammar.wf(),
            input@.len() < usize::MAX,
        ensures
            !self.grammar.has_rule(start_rule@) ==> (r matches Err(ParseError::RuleNotFound { rule_name })
                && rule_name@ == start_rule@),
            self.grammar.has_rule(start_rule@) ==> value_matches(
                self.grammar,
                parse_outcome(self.grammar, start_rule@, input@, act_of(*actions)),
                r,
                input@,
            ),
    {
        self.parse(start_rule, input, actions)
    }

    /// Parses all of `input` from rule `start_rule`: as `parse`, but input
    /// left over after the match is an error at its first character.
    pub fn parse_entire<A: RuleTransformer>(&self, start_rule: &str, input: &str, actions: &A) -> (r: Result<ParseValue, ParseError>)
        requires
            self.grammar.wf(),
            input@.len() < usize::MAX,
        ensures
            !self.grammar.has_rule(start_rule@) ==> (r matches Err(ParseError::RuleNotFound { rule_name })
                && rule_name@ == start_rule@),
            self.grammar.has_rule(start_rule@) ==> entire_matches(
                self.grammar,
                parse_outcome(self.grammar, start_rule@, input@, act_of(*actions)),
                r,
                input@,
            ),
    {
        let text = CharsInput::new(input);
        match parse_chars(&self.grammar, start_rule, text.chars.as_slice(), actions) {
            Ok((v, i)) => {
                if i.pos < text.chars.len() {
                    let mut rest = i;
                    let pos = rest.pos;
                    let row = rest.row;
                    let col = rest.col;
                    let c = rest.next();
                    Err(ParseError::UnexpectedChar { current_rule: "<parse_entire>".to_owned(), char: c, pos, row, col })
                } else {
                    Ok(v)
                }
            },
            Err(e) => Err(e),
        }
    }
}

} // verus!
