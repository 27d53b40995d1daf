//! Properties of the compiler and the parser that relate several calls.
use vstd::prelude::*;
use vstd::relations::{sorted_by, total_ordering};

use crate::grammar::{alts_of, compiled, normalize, Grammar};
use crate::order::lex_lt;
use crate::input::line_col;
use crate::parse::{
    at_recurse, end, strip, FrameModel, advance, entire_matches, entire_rule, entry_pos, error_matches, fail, first_at, min_len, parse_outcome, record,
    reported, step, value_matches, ActionsModel, Machine, Outcome,
};
use crate::result::{err_pos, err_same, value_view, ParseError, ParseValue, ValueModel};
use crate::rule::{
    alt_lt, alts_sorted, erase, group_head, is_forest, keys, lemma_depth_members, lemma_forest_decreases,
    lemma_order_strict_total, not_union, order_lt, order_rel, run_len, same_forest, syms, tails, texts,
    weight_rel, weights, key_of, lemma_weight_strict_total, AltModel, Rule, RuleTree, Sym,
};

verus! {

/// `order_lt` among `e`, or equal.
pub open spec fn order_le(e: Seq<Seq<Sym>>) -> spec_fn(Seq<Sym>, Seq<Sym>) -> bool {
    |a: Seq<Sym>, b: Seq<Sym>| order_lt(e, a, b) || a == b
}

pub proof fn lemma_order_le_total(e: Seq<Seq<Sym>>)
    ensures
        total_ordering(order_le(e)),
{
    lemma_order_strict_total(e);
    let l = order_rel(e);
    let le = order_le(e);
    assert forall|x: Seq<Sym>, y: Seq<Sym>| #[trigger] le(x, y) && #[trigger] le(y, x) implies x == y by {
        if x != y {
            assert(l(x, y) && l(y, x));
            assert(l(x, x));
        }
    }
    assert forall|x: Seq<Sym>, y: Seq<Sym>, z: Seq<Sym>| #[trigger] le(x, y) && #[trigger] le(y, z) implies le(
        x,
        z,
    ) by {
        if x != y && y != z {
            assert(l(x, y) && l(y, z));
        }
    }
    assert forall|x: Seq<Sym>, y: Seq<Sym>| #[trigger] le(x, y) || #[trigger] le(y, x) by {
        if x != y {
            assert(l(x, y) || l(y, x));
        }
    }
}

/// Mapping keeps equal multisets equal.
pub proof fn lemma_map_multiset<A, B>(x: Seq<A>, y: Seq<A>, f: spec_fn(A) -> B)
    requires
        x.to_multiset() == y.to_multiset(),
    ensures
        x.map_values(f).to_multiset() == y.map_values(f).to_multiset(),
    decreases x.len(),
{
    broadcast use vstd::seq_lib::group_to_multiset_ensures;

    if x.len() == 0 {
        assert(y.to_multiset().len() == 0);
        assert(y.len() == 0);
        assert(x.map_values(f) =~= y.map_values(f));
    } else {
        let a = x[0];
        assert(x.to_multiset().count(a) > 0) by {
            assert(x.contains(a));
        }
        assert(y.contains(a));
        let i = choose|i: int| 0 <= i < y.len() && y[i] == a;
        let y2 = y.remove(i);
        assert(x =~= x.drop_first().insert(0, a));
        vstd::seq_lib::to_multiset_insert(x.drop_first(), 0, a);
        vstd::seq_lib::to_multiset_remove(y, i);
        assert(x.drop_first().to_multiset() =~= y2.to_multiset());
        lemma_map_multiset(x.drop_first(), y2, f);
        assert(x.map_values(f) =~= x.drop_first().map_values(f).insert(0, f(a)));
        vstd::seq_lib::to_multiset_insert(x.drop_first().map_values(f), 0, f(a));
        assert(y.map_values(f) =~= y2.map_values(f).insert(i, f(a)));
        vstd::seq_lib::to_multiset_insert(y2.map_values(f), i, f(a));
    }
}

/// Alternatives in canonical order have their symbol lists in order.
pub proof fn lemma_erase_sorted(e: Seq<Seq<Sym>>, s: Seq<AltModel>)
    requires
        alts_sorted(e, s),
    ensures
        sorted_by(erase(s), order_le(e)),
{
    assert forall|i: int, j: int| 0 <= i < j < erase(s).len() implies #[trigger] order_le(e)(erase(s)[i], erase(s)[j]) by {
        assert(alt_lt(e, s[i], s[j]) && s[j] == s[j]);
    }
}

pub proof fn lemma_run_len_erase(s1: Seq<AltModel>, s2: Seq<AltModel>, h: Sym)
    requires
        erase(s1) == erase(s2),
    ensures
        run_len(s1, h) == run_len(s2, h),
    decreases s1.len(),
{
    assert(s1.len() == erase(s1).len() && s2.len() == erase(s2).len());
    if s1.len() > 0 {
        assert(s1[0].syms == erase(s1)[0] && s2[0].syms == erase(s2)[0]);
        assert(erase(s1.drop_first()) =~= erase(s1).drop_first());
        assert(erase(s2.drop_first()) =~= erase(s2).drop_first());
        lemma_run_len_erase(s1.drop_first(), s2.drop_first(), h);
    }
}

pub proof fn lemma_not_union_erase(acc: Seq<Seq<char>>, s1: Seq<AltModel>, s2: Seq<AltModel>)
    requires
        erase(s1) == erase(s2),
    ensures
        not_union(acc, s1) == not_union(acc, s2),
    decreases s1.len(),
{
    assert(s1.len() == erase(s1).len() && s2.len() == erase(s2).len());
    if s1.len() > 0 {
        assert(s1[0].syms == erase(s1)[0] && s2[0].syms == erase(s2)[0]);
        assert(erase(s1.drop_first()) =~= erase(s1).drop_first());
        assert(erase(s2.drop_first()) =~= erase(s2).drop_first());
        let acc2 = match s1[0].syms[0] {
            Sym::Not(l) => crate::rule::add_new(acc, l),
            _ => acc,
        };
        lemma_not_union_erase(acc2, s1.drop_first(), s2.drop_first());
    }
}

/// Forests compiled from alternatives with the same symbols, in the same
/// order, have the same shape.
pub proof fn lemma_forest_shape(f1: Seq<RuleTree>, s1: Seq<AltModel>, f2: Seq<RuleTree>, s2: Seq<AltModel>)
    requires
        is_forest(f1, s1),
        is_forest(f2, s2),
        erase(s1) == erase(s2),
    ensures
        same_forest(f1, f2),
    decreases crate::rule::forest_measure(s1),
{
    assert(s1.len() == erase(s1).len() && s2.len() == erase(s2).len());
    if s1.len() == 0 {
        assert(f1.len() == 0 && f2.len() == 0);
    } else if s1[0].syms.len() == 0 {
        assert(s1[0].syms == erase(s1)[0] && s2[0].syms == erase(s2)[0]);
        assert(f1.drop_first().len() == 0 && f2.drop_first().len() == 0);
        assert(f1[0] is End && f2[0] is End);
        assert(same_forest(f1.drop_first(), f2.drop_first()));
    } else {
        assert(s1[0].syms == erase(s1)[0] && s2[0].syms == erase(s2)[0]);
        let h = s1[0].syms[0];
        let k = run_len(s1, h);
        lemma_run_len_erase(s1, s2, h);
        lemma_forest_decreases(s1);
        crate::rule::lemma_run(s1, h);
        crate::rule::lemma_run(s2, h);
        let r1 = s1.take(k as int);
        let r2 = s2.take(k as int);
        assert(erase(r1) =~= erase(r2)) by {
            assert forall|i: int| 0 <= i < k implies erase(r1)[i] == erase(r2)[i] by {
                assert(erase(s1)[i] == erase(s2)[i]);
            }
        }
        assert(erase(tails(r1)) =~= erase(tails(r2))) by {
            assert forall|i: int| 0 <= i < k implies erase(tails(r1))[i] == erase(tails(r2))[i] by {
                assert(erase(s1)[i] == erase(s2)[i]);
            }
        }
        assert(erase(s1.skip(k as int)) =~= erase(s2.skip(k as int))) by {
            assert forall|i: int| 0 <= i < s1.len() - k implies erase(s1.skip(k as int))[i] == erase(
                s2.skip(k as int),
            )[i] by {
                assert(erase(s1)[i + k] == erase(s2)[i + k]);
            }
        }
        assert(r1[0].syms == r2[0].syms) by {
            assert(erase(r1)[0] == erase(r2)[0]);
        }
        lemma_not_union_erase(seq![], r1, r2);
        assert(group_head(r1) == group_head(r2));
        let n1 = f1[0]->Part_nexts;
        let n2 = f2[0]->Part_nexts;
        lemma_forest_shape(n1@, tails(r1), n2@, tails(r2));
        lemma_forest_shape(f1.drop_first(), s1.skip(k as int), f2.drop_first(), s2.skip(k as int));
        assert(s2[0].syms[0] == h);
        assert(f1[0] is Part && f2[0] is Part);
        assert(f1[0]->Part_part@ == f2[0]->Part_part@);
        assert(same_forest(n1@, n2@));
    }
}

/// Compiling the same alternatives, declared in any order, gives forests of
/// the same shape: the canonical order leaves nothing to the order of
/// declaration but which of two identical alternatives keeps its action.
pub proof fn lemma_compile_order_insensitive(f1: Seq<RuleTree>, a1: Seq<AltModel>, f2: Seq<RuleTree>, a2: Seq<AltModel>)
    requires
        compiled(f1, a1),
        compiled(f2, a2),
        erase(a1).to_multiset() == erase(a2).to_multiset(),
    ensures
        same_forest(f1, f2),
{
    broadcast use vstd::seq_lib::group_to_multiset_ensures;

    let e1 = erase(a1);
    let e2 = erase(a2);
    let s1 = choose|s: Seq<AltModel>| #![trigger is_forest(f1, s)] alts_sorted(e1, s) && s.to_multiset() == a1.to_multiset() && is_forest(f1, s);
    let s2 = choose|s: Seq<AltModel>| #![trigger is_forest(f2, s)] alts_sorted(e2, s) && s.to_multiset() == a2.to_multiset() && is_forest(f2, s);
    let ef = |a: AltModel| a.syms;
    lemma_map_multiset(s1, a1, ef);
    lemma_map_multiset(s2, a2, ef);
    assert(erase(s1) == s1.map_values(ef));
    assert(erase(s2) == s2.map_values(ef));
    assert(e1 == a1.map_values(ef));
    assert(e2 == a2.map_values(ef));
    assert forall|x: Seq<Sym>| e1.contains(x) <==> e2.contains(x) by {
        assert(e1.contains(x) <==> e1.to_multiset().count(x) > 0);
        assert(e2.contains(x) <==> e2.to_multiset().count(x) > 0);
    }
    assert forall|x: Seq<Sym>, y: Seq<Sym>| #[trigger] order_le(e1)(x, y) == order_le(e2)(x, y) by {
        assert(weights(e1, x) =~= weights(e2, x)) by {
            assert forall|i: int| 0 <= i < x.len() implies weights(e1, x)[i] == weights(e2, x)[i] by {
                lemma_depth_members(e1, e2, keys(x).take(i + 1));
            }
        }
        assert(weights(e1, y) =~= weights(e2, y)) by {
            assert forall|i: int| 0 <= i < y.len() implies weights(e1, y)[i] == weights(e2, y)[i] by {
                lemma_depth_members(e1, e2, keys(y).take(i + 1));
            }
        }
    }
    assert(order_le(e1) =~= order_le(e2));
    lemma_erase_sorted(e1, s1);
    lemma_erase_sorted(e2, s2);
    lemma_order_le_total(e1);
    vstd::seq_lib::lemma_sorted_unique(erase(s1), erase(s2), order_le(e1));
    lemma_forest_shape(f1, s1, f2, s2);
}

/// Two reports of a failed parse say the same: the same error, the same
/// list of failures, or the same refusal of an action.
pub open spec fn same_report(a: ParseError, b: ParseError) -> bool {
    ||| a == b
    ||| (a matches ParseError::MultipleErrors { errors: x } && b matches ParseError::MultipleErrors { errors: y }
        && x@ == y@)
    ||| (a matches ParseError::ActionError { current_rule: r1, pos: p1, row: w1, col: c1, error: m1 }
        && b matches ParseError::ActionError { current_rule: r2, pos: p2, row: w2, col: c2, error: m2 }
        && r1 == r2 && p1 == p2 && w1 == w2 && c1 == c2 && m1@ == m2@)
}

/// Parsing the same input with the same grammar and actions twice gives the
/// same result: both parses match with the same value, or both fail with
/// the same report.
pub proof fn lemma_parse_deterministic(
    g: Grammar,
    start: Seq<char>,
    s: Seq<char>,
    act: ActionsModel,
    r1: Result<ParseValue, ParseError>,
    r2: Result<ParseValue, ParseError>,
)
    requires
        value_matches(g, parse_outcome(g, start, s, act), r1, s),
        value_matches(g, parse_outcome(g, start, s, act), r2, s),
    ensures
        r1 is Ok <==> r2 is Ok,
        r1 matches Ok(v1) ==> r2 matches Ok(v2) && value_view(v1) == value_view(v2),
        r1 matches Err(e1) ==> r2 matches Err(e2) && same_report(e1, e2),
{
}

/// A parse whose match leaves input over succeeds and ignores the rest,
/// while a parse of the entire input fails there with an unexpected
/// character; when the match takes all the input both succeed with the
/// same value.
pub proof fn lemma_entire_vs_partial(
    g: Grammar,
    start: Seq<char>,
    s: Seq<char>,
    act: ActionsModel,
    partial: Result<ParseValue, ParseError>,
    entire: Result<ParseValue, ParseError>,
)
    requires
        value_matches(g, parse_outcome(g, start, s, act), partial, s),
        entire_matches(g, parse_outcome(g, start, s, act), entire, s),
        partial is Ok,
    ensures
        parse_outcome(g, start, s, act) is Done,
        parse_outcome(g, start, s, act) matches Outcome::Done(p, _) ==> p < s.len() ==> (entire matches Err(
            ParseError::UnexpectedChar { current_rule, char: Some(c), pos, row, col },
        ) && current_rule@ == entire_rule() && pos == p && c == s[p as int] && row == line_col(s, p).0 && col
            == line_col(s, p).1),
        parse_outcome(g, start, s, act) matches Outcome::Done(p, _) ==> p >= s.len() ==> (entire matches Ok(v)
            && partial matches Ok(w) && value_view(v) == value_view(w)),
{
}

/// The symbols that rule `r` adds to the alternatives of `k`.
pub open spec fn contribution(r: Rule, k: Seq<char>) -> Seq<Seq<Sym>> {
    if r.name@ == k {
        seq![normalize(k, syms(r.parts@))]
    } else {
        seq![]
    }
}

/// The symbols of the alternatives of `k` among `rules`, in order.
pub open spec fn rule_syms(rules: Seq<Rule>, k: Seq<char>) -> Seq<Seq<Sym>>
    decreases rules.len(),
{
    if rules.len() == 0 {
        seq![]
    } else {
        rule_syms(rules.drop_last(), k) + contribution(rules.last(), k)
    }
}

pub proof fn lemma_erase_alts_of(rules: Seq<Rule>, k: Seq<char>)
    ensures
        erase(alts_of(rules, k)) == rule_syms(rules, k),
    decreases rules.len(),
{
    if rules.len() > 0 {
        lemma_erase_alts_of(rules.drop_last(), k);
        let before = alts_of(rules.drop_last(), k);
        if rules.last().name@ == k {
            let a = AltModel {
                syms: normalize(k, syms(rules.last().parts@)),
                action: rules.last().transformer,
                index: before.len(),
            };
            assert(erase(before.push(a)) =~= erase(before) + contribution(rules.last(), k));
        } else {
            assert(erase(before) =~= erase(before) + contribution(rules.last(), k));
        }
    }
}

pub proof fn lemma_rule_syms_remove(s: Seq<Rule>, k: Seq<char>, i: int)
    requires
        0 <= i < s.len(),
    ensures
        rule_syms(s, k).to_multiset() == rule_syms(s.remove(i), k).to_multiset().add(
            contribution(s[i], k).to_multiset(),
        ),
    decreases s.len(),
{
    broadcast use vstd::seq_lib::lemma_multiset_commutative;

    if i == s.len() - 1 {
        assert(s.remove(i) =~= s.drop_last());
    } else {
        lemma_rule_syms_remove(s.drop_last(), k, i);
        assert(s.remove(i).drop_last() =~= s.drop_last().remove(i));
        assert(s.remove(i).last() == s.last());
        assert(s.drop_last()[i] == s[i]);
        let a = rule_syms(s.drop_last().remove(i), k).to_multiset();
        let b = contribution(s[i], k).to_multiset();
        let c = contribution(s.last(), k).to_multiset();
        assert(a.add(b).add(c) =~= a.add(c).add(b));
    }
}

pub proof fn lemma_rule_syms_perm(r1: Seq<Rule>, r2: Seq<Rule>, k: Seq<char>)
    requires
        r1.to_multiset() == r2.to_multiset(),
    ensures
        rule_syms(r1, k).to_multiset() == rule_syms(r2, k).to_multiset(),
    decreases r1.len(),
{
    broadcast use vstd::seq_lib::group_to_multiset_ensures;
    broadcast use vstd::seq_lib::lemma_multiset_commutative;

    if r1.len() == 0 {
        assert(r2.to_multiset().len() == 0);
        assert(r2.len() == 0);
    } else {
        let x = r1.last();
        assert(r1.to_multiset().count(x) > 0) by {
            assert(r1.contains(x)) by {
                assert(r1[r1.len() - 1] == x);
            }
        }
        assert(r2.contains(x));
        let i = choose|i: int| 0 <= i < r2.len() && r2[i] == x;
        assert(r1 =~= r1.drop_last().push(x));
        vstd::seq_lib::to_multiset_build(r1.drop_last(), x);
        vstd::seq_lib::to_multiset_remove(r2, i);
        assert(r1.drop_last().to_multiset() =~= r2.remove(i).to_multiset());
        lemma_rule_syms_perm(r1.drop_last(), r2.remove(i), k);
        lemma_rule_syms_remove(r2, k, i);
    }
}

/// Compiling the same rules declared in any order gives, for every rule
/// name, forests of the same shape.
pub proof fn lemma_rules_order_insensitive(
    r1: Seq<Rule>,
    r2: Seq<Rule>,
    g1: Grammar,
    g2: Grammar,
    k: Seq<char>,
    i1: int,
    i2: int,
)
    requires
        r1.to_multiset() == r2.to_multiset(),
        forall|q: Seq<char>, i: int| g1.defines(q, i) ==> compiled(g1.forests@[i]@, alts_of(r1, q)),
        forall|q: Seq<char>, i: int| g2.defines(q, i) ==> compiled(g2.forests@[i]@, alts_of(r2, q)),
        g1.defines(k, i1),
        g2.defines(k, i2),
    ensures
        same_forest(g1.forests@[i1]@, g2.forests@[i2]@),
{
    lemma_erase_alts_of(r1, k);
    lemma_erase_alts_of(r2, k);
    lemma_rule_syms_perm(r1, r2, k);
    lemma_compile_order_insensitive(g1.forests@[i1]@, alts_of(r1, k), g2.forests@[i2]@, alts_of(r2, k));
}

/// In canonical order an alternative that starts with a longer literal
/// comes before one that starts with a shorter literal, so the forest,
/// built from the alternatives in that order, tries the longer literal
/// first.
pub proof fn lemma_longer_literal_first(e: Seq<Seq<Sym>>, s: Seq<AltModel>, i: int, j: int)
    requires
        alts_sorted(e, s),
        0 <= i < s.len(),
        0 <= j < s.len(),
        s[i].syms.len() > 0,
        s[j].syms.len() > 0,
        s[i].syms[0] is Term,
        s[j].syms[0] is Term,
        s[i].syms[0]->Term_0.len() > s[j].syms[0]->Term_0.len(),
    ensures
        i < j,
{
    if j <= i {
        assert(j != i);
        assert(alt_lt(e, s[j], s[i]) && s[i] == s[i]);
        let wi = weights(e, s[i].syms);
        let wj = weights(e, s[j].syms);
        assert(wi[0].len == s[i].syms[0]->Term_0.len());
        assert(wj[0].len == s[j].syms[0]->Term_0.len());
        assert(wi[0].rank == wj[0].rank);
        assert(wi != wj);
        assert(s[i].syms != s[j].syms);
        assert(!weight_rel()(wj[0], wi[0]));
        assert(!lex_lt(wj, wi, weight_rel()));
    }
}

/// At a negative lookahead, where none of its literals stands and enough
/// input is left, the parse consumes exactly as many characters as the
/// shortest literal has and keeps them as a token; where one of its
/// literals stands, that literal is the failure's error.
pub proof fn lemma_lookahead_step(g: Grammar, chars: Seq<char>, m: Machine, act: ActionsModel)
    requires
        m.frames.last().n < m.frames.last().trees.len(),
        m.frames.last().trees[m.frames.last().n as int] is Part,
        m.frames.last().trees[m.frames.last().n as int]->Part_part is Not,
    ensures
        ({
            let f = m.frames.last();
            let node = f.trees[f.n as int];
            let v = node->Part_part->Not_0@;
            let k = min_len(texts(v));
            &&& (first_at(chars, f.pos as int, texts(v), 0) is None && f.pos + k <= chars.len()) ==> step(
                g,
                chars,
                m,
                act,
            ) == Outcome::Running(
                advance(
                    m,
                    node->Part_nexts@,
                    f.pos + k,
                    ValueModel::Token(chars.subrange(f.pos as int, (f.pos + k) as int)),
                ),
            )
            &&& first_at(chars, f.pos as int, texts(v), 0) matches Some(j) ==> step(g, chars, m, act) == fail(
                m,
                Some(
                    ParseError::UnexpectedToken {
                        current_rule: g.names@[f.rule as int],
                        token: v[j],
                        pos: f.pos as usize,
                        row: line_col(chars, f.pos).0 as usize,
                        col: line_col(chars, f.pos).1 as usize,
                    },
                ),
            )
        }),
{
}

/// Failures at one position gather without repeats: three distinct ones
/// give exactly those three, in order, reported together as
/// `MultipleErrors`; one equal to a failure already there adds nothing.
pub proof fn lemma_failures_gather(e1: ParseError, e2: ParseError, e3: ParseError, r: ParseError)
    requires
        err_pos(e1) == err_pos(e2) == err_pos(e3),
        !err_same(e1, e2),
        !err_same(e1, e3),
        !err_same(e2, e3),
        reported(record(record(record(seq![], e1), e2), e3), r),
    ensures
        record(record(record(seq![], e1), e2), e3) == seq![e1, e2, e3],
        err_same(e2, e2) ==> record(seq![e1, e2, e3], e2) == seq![e1, e2, e3],
        r matches ParseError::MultipleErrors { errors } && errors@ == seq![e1, e2, e3],
{
    let s1 = record(seq![], e1);
    assert(s1 =~= seq![e1]);
    let s2 = record(s1, e2);
    assert(!(exists|i: int| 0 <= i < s1.len() && err_same(#[trigger] s1[i], e2)));
    assert(s2 =~= seq![e1, e2]);
    let s3 = record(s2, e3);
    assert(!(exists|i: int| 0 <= i < s2.len() && err_same(#[trigger] s2[i], e3))) by {
        assert forall|i: int| 0 <= i < s2.len() implies !err_same(#[trigger] s2[i], e3) by {
            if i == 0 {
                assert(s2[i] == e1);
            } else {
                assert(s2[i] == e2);
            }
        }
    }
    assert(s3 =~= seq![e1, e2, e3]);
    let all = seq![e1, e2, e3];
    if err_same(e2, e2) {
        assert(all[1] == e2);
        assert(exists|i: int| 0 <= i < all.len() && err_same(#[trigger] all[i], e2));
    }
}

/// An action that refuses the values of its rule ends the parse: the
/// error names the rule, carries the position where the rule was entered
/// with its line and column, and the action's own message.
pub proof fn lemma_action_refusal(g: Grammar, chars: Seq<char>, m: Machine, act: ActionsModel, e: ParseError)
    requires
        m.frames.last().n < m.frames.last().trees.len(),
        m.frames.last().trees[m.frames.last().n as int] matches RuleTree::End { transformer: Some(a) } && act(
            a,
            m.bufs.last(),
        ) is Err,
        error_matches(g, step(g, chars, m, act), e, chars),
    ensures
        ({
            let f = m.frames.last();
            let a = f.trees[f.n as int]->End_transformer->0;
            let msg = act(a, m.bufs.last())->Err_0;
            &&& step(g, chars, m, act) == Outcome::Refused(f.rule, entry_pos(m), msg)
            &&& e matches ParseError::ActionError { current_rule, pos, row, col, error } && current_rule
                == g.names@[f.rule as int] && pos == entry_pos(m) && row == line_col(chars, entry_pos(m)).0 && col
                == line_col(chars, entry_pos(m)).1 && error@ == msg
        }),
{
}

/// The alternatives that start with one key stand together.
pub open spec fn keys_together(s: Seq<AltModel>) -> bool {
    forall|i: int, j: int, l: int|
        #![trigger s[i], s[j], s[l]]
        0 <= i < j < l < s.len() && s[i].syms.len() > 0 && s[l].syms.len() > 0 && key_of(s[i].syms[0]) == key_of(
            s[l].syms[0],
        ) ==> s[j].syms.len() > 0 && key_of(s[j].syms[0]) == key_of(s[i].syms[0])
}

pub proof fn lemma_sorted_together(e: Seq<Seq<Sym>>, s: Seq<AltModel>)
    requires
        alts_sorted(e, s),
    ensures
        keys_together(s),
{
    lemma_weight_strict_total();
    let w = weight_rel();
    assert forall|i: int, j: int, l: int|
        #![trigger s[i], s[j], s[l]]
        0 <= i < j < l < s.len() && s[i].syms.len() > 0 && s[l].syms.len() > 0 && key_of(s[i].syms[0]) == key_of(
            s[l].syms[0],
        ) implies s[j].syms.len() > 0 && key_of(s[j].syms[0]) == key_of(s[i].syms[0]) by {
        assert(alt_lt(e, s[i], s[j]) && s[j] == s[j]);
        assert(alt_lt(e, s[j], s[l]) && s[l] == s[l]);
        let wi = weights(e, s[i].syms);
        let wj = weights(e, s[j].syms);
        let wl = weights(e, s[l].syms);
        if s[j].syms.len() == 0 {
            assert(wj.len() == 0 && wl.len() > 0);
            assert(!lex_lt(wj, wl, w));
            assert(s[j].syms != s[l].syms);
        } else {
            assert(keys(s[i].syms).take(1) =~= seq![key_of(s[i].syms[0])]);
            assert(keys(s[l].syms).take(1) =~= seq![key_of(s[l].syms[0])]);
            assert(wi[0] == wl[0]);
            assert(wi[0] == wj[0] || w(wi[0], wj[0]));
            assert(wj[0] == wl[0] || w(wj[0], wl[0]));
            if wi[0] != wj[0] {
                if wj[0] != wl[0] {
                    assert(w(wi[0], wl[0]));
                }
                assert(w(wi[0], wi[0]));
            }
            assert(wj[0].key == key_of(s[j].syms[0]));
        }
    }
}

/// Every node of a forest starts some alternative it was built from.
pub proof fn lemma_node_keys(ts: Seq<RuleTree>, s: Seq<AltModel>, n: int)
    requires
        is_forest(ts, s),
        0 <= n < ts.len(),
        ts[n] is Part,
    ensures
        exists|q: int| 0 <= q < s.len() && s[q].syms.len() > 0 && key_of(#[trigger] s[q].syms[0]) == key_of(
            ts[n]->Part_part@,
        ),
    decreases crate::rule::forest_measure(s), n,
{
    if s.len() > 0 && s[0].syms.len() > 0 {
        let h = s[0].syms[0];
        let k = run_len(s, h);
        lemma_forest_decreases(s);
        crate::rule::lemma_run(s, h);
        if n == 0 {
            assert(key_of(group_head(s.take(k as int))) == key_of(h));
            assert(s.take(k as int)[0] == s[0]);
        } else {
            assert(ts.drop_first()[n - 1] == ts[n]);
            lemma_node_keys(ts.drop_first(), s.skip(k as int), n - 1);
            let q = choose|q: int| 0 <= q < s.skip(k as int).len() && s.skip(k as int)[q].syms.len() > 0 && key_of(
                #[trigger] s.skip(k as int)[q].syms[0],
            ) == key_of(ts[n]->Part_part@);
            assert(s.skip(k as int)[q] == s[q + k]);
        }
    }
}

/// In a forest built from alternatives whose keys stand together, no two
/// siblings share a key.
pub proof fn lemma_siblings_distinct(ts: Seq<RuleTree>, s: Seq<AltModel>)
    requires
        is_forest(ts, s),
        keys_together(s),
    ensures
        forall|i: int, j: int|
            0 <= i < j < ts.len() && ts[i] is Part && ts[j] is Part ==> key_of((#[trigger] ts[i])->Part_part@)
                != key_of((#[trigger] ts[j])->Part_part@),
    decreases crate::rule::forest_measure(s),
{
    if s.len() > 0 && s[0].syms.len() > 0 {
        let h = s[0].syms[0];
        let k = run_len(s, h);
        lemma_forest_decreases(s);
        crate::rule::lemma_run(s, h);
        let rest = s.skip(k as int);
        assert(keys_together(rest)) by {
            assert forall|i: int, j: int, l: int|
                #![trigger rest[i], rest[j], rest[l]]
                0 <= i < j < l < rest.len() && rest[i].syms.len() > 0 && rest[l].syms.len() > 0 && key_of(
                    rest[i].syms[0],
                ) == key_of(rest[l].syms[0]) implies rest[j].syms.len() > 0 && key_of(rest[j].syms[0]) == key_of(
                rest[i].syms[0],
            ) by {
                assert(rest[i] == s[i + k] && rest[j] == s[j + k] && rest[l] == s[l + k]);
            }
        }
        lemma_siblings_distinct(ts.drop_first(), rest);
        assert(key_of(group_head(s.take(k as int))) == key_of(h));
        assert(s.take(k as int)[0] == s[0]);
        assert forall|i: int, j: int|
            0 <= i < j < ts.len() && ts[i] is Part && ts[j] is Part implies key_of((#[trigger] ts[i])->Part_part@)
                != key_of((#[trigger] ts[j])->Part_part@) by {
            if i == 0 {
                assert(ts.drop_first()[j - 1] == ts[j]);
                lemma_node_keys(ts.drop_first(), rest, j - 1);
                let q = choose|q: int| 0 <= q < rest.len() && rest[q].syms.len() > 0 && key_of(
                    #[trigger] rest[q].syms[0],
                ) == key_of(ts[j]->Part_part@);
                assert(rest[q] == s[q + k]);
                if key_of(ts[j]->Part_part@) == key_of(h) {
                    if q > 0 {
                        assert(s[0] == s[0] && s[k as int] == s[k as int] && s[q + k] == s[q + k]);
                    }
                    assert(s[k as int].syms.len() > 0 && key_of(s[k as int].syms[0]) == key_of(h));
                    crate::rule::lemma_same_key(s[k as int].syms[0], h);
                }
            } else {
                assert(ts.drop_first()[i - 1] == ts[i] && ts.drop_first()[j - 1] == ts[j]);
            }
        }
    }
}

/// In a compiled forest no two siblings share a key: alternatives that
/// start alike share one node, so a failure after the shared prefix
/// backtracks within that node instead of matching the prefix again.
pub proof fn lemma_compiled_shared_prefix(f: Seq<RuleTree>, a: Seq<AltModel>)
    requires
        compiled(f, a),
    ensures
        forall|i: int, j: int|
            0 <= i < j < f.len() && f[i] is Part && f[j] is Part ==> key_of((#[trigger] f[i])->Part_part@) != key_of(
                (#[trigger] f[j])->Part_part@,
            ),
{
    let s = choose|s: Seq<AltModel>| #![trigger is_forest(f, s)] alts_sorted(erase(a), s) && s.to_multiset() == a.to_multiset() && is_forest(f, s);
    lemma_sorted_together(erase(a), s);
    lemma_siblings_distinct(f, s);
}

/// Seed growing: when a left-recursive rule's value is ready and the frame
/// that entered the rule stands at the recursion marker with nothing in
/// its buffer, the parse goes on one deeper on the marker's continuations,
/// from where the value ended, with the value as the one element of the
/// new buffer.
pub proof fn lemma_growth_feeds_back(m: Machine, at: Option<nat>, v: ValueModel)
    requires
        m.frames.len() > 0,
        m.frames.last().depth > 0,
        m.bufs.len() > 0,
        m.bufs.last().len() == 0,
        strip(m.frames, m.frames.last().depth).len() > 0,
        at_recurse(strip(m.frames, m.frames.last().depth).last()),
    ensures
        ({
            let nt = strip(m.frames, m.frames.last().depth).last();
            let pos = match at {
                Some(p) => p,
                None => m.frames.last().pos,
            };
            end(m, at, v) matches Outcome::Running(m2) && m2.bufs.last() == seq![v] && m2.frames.last() == (
            FrameModel {
                depth: nt.depth + 1,
                rule: nt.rule,
                trees: nt.trees[nt.n as int]->Part_nexts@,
                n: 0,
                pos,
            })
        }),
{
    assert(seq![].push(v) =~= seq![v]);
}

/// Parsing an entire input fails where a parse of a prefix fails, with the
/// same report.
pub proof fn lemma_entire_fails_with_partial(
    g: Grammar,
    start: Seq<char>,
    s: Seq<char>,
    act: ActionsModel,
    partial: Result<ParseValue, ParseError>,
    entire: Result<ParseValue, ParseError>,
)
    requires
        value_matches(g, parse_outcome(g, start, s, act), partial, s),
        entire_matches(g, parse_outcome(g, start, s, act), entire, s),
        partial is Err,
    ensures
        entire matches Err(e) && same_report(partial->Err_0, e),
{
}

} // verus!
