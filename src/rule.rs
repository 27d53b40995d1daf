//! Symbols, rules and the decision trees they compile to.
use vstd::prelude::*;

use crate::order::{
    char_rel, lemma_lex_irreflexive, lemma_lex_strict_total, lemma_lex_total, lemma_lex_transitive, lemma_text_strict_total,
    lex_lt, strict_total, text_lt, text_rel,
};

verus! {

/// One symbol of an alternative.
#[derive(Debug)]
pub enum RulePart {
    /// A literal, matched character by character.
    Term(String),
    /// Another rule, by name.
    NonTerm(String),
    /// The rule itself, as the first symbol of one of its alternatives.
    Recurse,
    /// Matches where none of the literals does, and consumes as many
    /// characters as the shortest of them has.
    Not(Vec<String>),
}

/// A symbol as a mathematical value.
pub enum Sym {
    Term(Seq<char>),
    NonTerm(Seq<char>),
    Recurse,
    Not(Seq<Seq<char>>),
}

/// The texts of a list of literals.
pub open spec fn texts(v: Seq<String>) -> Seq<Seq<char>> {
    v.map_values(|s: String| s@)
}

impl View for RulePart {
    type V = Sym;

    open spec fn view(&self) -> Sym {
        match self {
            RulePart::Term(s) => Sym::Term(s@),
            RulePart::NonTerm(s) => Sym::NonTerm(s@),
            RulePart::Recurse => Sym::Recurse,
            RulePart::Not(v) => Sym::Not(texts(v@)),
        }
    }
}

/// The symbols of an alternative.
pub open spec fn syms(v: Seq<RulePart>) -> Seq<Sym> {
    v.map_values(|p: RulePart| p@)
}

/// Where a symbol stands among its siblings: recursion first (the engine
/// grows it only after the other alternatives gave a base), then literals,
/// then rules, then negative lookahead.
pub open spec fn sym_rank(s: Sym) -> int {
    match s {
        Sym::Recurse => 0,
        Sym::Term(_) => 1,
        Sym::NonTerm(_) => 2,
        Sym::Not(_) => 3,
    }
}

/// The canonical order of sibling symbols: by rank; a longer literal before
/// a shorter one; otherwise by text.
pub open spec fn sym_lt(a: Sym, b: Sym) -> bool {
    if sym_rank(a) != sym_rank(b) {
        sym_rank(a) < sym_rank(b)
    } else {
        match (a, b) {
            (Sym::Term(x), Sym::Term(y)) => x.len() > y.len() || (x.len() == y.len() && text_lt(x, y)),
            (Sym::NonTerm(x), Sym::NonTerm(y)) => text_lt(x, y),
            (Sym::Not(x), Sym::Not(y)) => lex_lt(x, y, text_rel()),
            _ => false,
        }
    }
}

/// `sym_lt` as a relation.
pub open spec fn sym_rel() -> spec_fn(Sym, Sym) -> bool {
    |a: Sym, b: Sym| sym_lt(a, b)
}

pub proof fn lemma_sym_strict_total()
    ensures
        strict_total(sym_rel()),
{
    lemma_text_strict_total();
    let tl = text_rel();
    let l = sym_rel();
    assert forall|x: Sym| !#[trigger] l(x, x) by {
        match x {
            Sym::Not(a) => lemma_lex_irreflexive(a, tl),
            Sym::Term(a) => lemma_lex_irreflexive(a, char_rel()),
            Sym::NonTerm(a) => lemma_lex_irreflexive(a, char_rel()),
            _ => {},
        }
    }
    assert forall|x: Sym, y: Sym, z: Sym| #[trigger] l(x, y) && #[trigger] l(y, z) implies l(x, z) by {
        if sym_rank(x) == sym_rank(y) && sym_rank(y) == sym_rank(z) {
            match (x, y, z) {
                (Sym::Term(a), Sym::Term(b), Sym::Term(c)) => {
                    if a.len() == b.len() && b.len() == c.len() {
                        assert(tl(a, b) && tl(b, c));
                    }
                },
                (Sym::NonTerm(a), Sym::NonTerm(b), Sym::NonTerm(c)) => {
                    assert(tl(a, b) && tl(b, c));
                },
                (Sym::Not(a), Sym::Not(b), Sym::Not(c)) => {
                    lemma_lex_transitive(a, b, c, tl);
                },
                _ => {},
            }
        }
    }
    assert forall|x: Sym, y: Sym| x != y implies #[trigger] l(x, y) || #[trigger] l(y, x) by {
        if sym_rank(x) == sym_rank(y) {
            match (x, y) {
                (Sym::Term(a), Sym::Term(b)) => {
                    assert(tl(a, b) || tl(b, a) || a == b);
                },
                (Sym::NonTerm(a), Sym::NonTerm(b)) => {
                    assert(tl(a, b) || tl(b, a) || a == b);
                },
                (Sym::Not(a), Sym::Not(b)) => {
                    if a != b {
                        lemma_lex_total(a, b, tl);
                    }
                },
                _ => {},
            }
        }
    }
}

/// The canonical order of alternatives: lexicographic in their symbols, an
/// alternative sorting after every longer one that it is a prefix of.
pub open spec fn syms_lt(a: Seq<Sym>, b: Seq<Sym>) -> bool {
    lex_lt(a, b, sym_rel())
}

/// `syms_lt` as a relation.
pub open spec fn syms_rel() -> spec_fn(Seq<Sym>, Seq<Sym>) -> bool {
    |a: Seq<Sym>, b: Seq<Sym>| syms_lt(a, b)
}

pub proof fn lemma_syms_strict_total()
    ensures
        strict_total(syms_rel()),
{
    lemma_sym_strict_total();
    lemma_lex_strict_total(sym_rel());
    let l2 = |a: Seq<Sym>, b: Seq<Sym>| lex_lt(a, b, sym_rel());
    assert forall|a: Seq<Sym>, b: Seq<Sym>| #[trigger] syms_rel()(a, b) == l2(a, b) by {}
    assert(syms_rel() =~= l2);
}

/// Whether `a` sorts before `b` by their characters.
pub fn text_less(a: &String, b: &String) -> (r: bool)
    ensures
        r == text_lt(a@, b@),
{
    let sa = a.as_str();
    let sb = b.as_str();
    let na = sa.unicode_len();
    let nb = sb.unicode_len();
    let mut i: usize = 0;
    assert(a@.skip(0) =~= a@);
    assert(b@.skip(0) =~= b@);
    while i < na && i < nb
        invariant
            na == a@.len(),
            nb == b@.len(),
            sa@ == a@,
            sb@ == b@,
            i <= na,
            i <= nb,
            text_lt(a@, b@) == text_lt(a@.skip(i as int), b@.skip(i as int)),
        decreases na - i,
    {
        let ca = sa.get_char(i);
        let cb = sb.get_char(i);
        if ca != cb {
            assert(a@.skip(i as int)[0] == ca);
            assert(b@.skip(i as int)[0] == cb);
            return (ca as u32) < (cb as u32);
        }
        assert(a@.skip(i as int).drop_first() =~= a@.skip(i + 1));
        assert(b@.skip(i as int).drop_first() =~= b@.skip(i + 1));
        i = i + 1;
    }
    i < na
}

/// Whether two strings hold the same characters.
pub fn text_eq(a: &String, b: &String) -> (r: bool)
    ensures
        r == (a@ == b@),
{
    a.eq(b)
}

/// Whether two lists of literals are equal.
fn texts_eq(a: &Vec<String>, b: &Vec<String>) -> (r: bool)
    ensures
        r == (texts(a@) == texts(b@)),
{
    if a.len() != b.len() {
        assert(texts(a@).len() != texts(b@).len());
        return false;
    }
    let mut i: usize = 0;
    while i < a.len()
        invariant
            a.len() == b.len(),
            i <= a.len(),
            forall|j: int| 0 <= j < i ==> a@[j]@ == b@[j]@,
        decreases a.len() - i,
    {
        if !text_eq(&a[i], &b[i]) {
            assert(texts(a@)[i as int] != texts(b@)[i as int]);
            return false;
        }
        i = i + 1;
    }
    assert(texts(a@) =~= texts(b@));
    true
}

/// Whether the list of literals `a` sorts before `b`.
fn texts_less(a: &Vec<String>, b: &Vec<String>) -> (r: bool)
    ensures
        r == lex_lt(texts(a@), texts(b@), text_rel()),
{
    let ghost ta = texts(a@);
    let ghost tb = texts(b@);
    let mut i: usize = 0;
    assert(ta.skip(0) =~= ta);
    assert(tb.skip(0) =~= tb);
    while i < a.len() && i < b.len()
        invariant
            i <= a.len(),
            i <= b.len(),
            ta == texts(a@),
            tb == texts(b@),
            lex_lt(ta, tb, text_rel()) == lex_lt(ta.skip(i as int), tb.skip(i as int), text_rel()),
        decreases a.len() - i,
    {
        if !text_eq(&a[i], &b[i]) {
            assert(ta.skip(i as int)[0] == ta[i as int]);
            assert(tb.skip(i as int)[0] == tb[i as int]);
            assert(ta[i as int] == a@[i as int]@);
            assert(tb[i as int] == b@[i as int]@);
            let r = text_less(&a[i], &b[i]);
            assert(text_rel()(ta[i as int], tb[i as int]) == text_lt(ta[i as int], tb[i as int]));
            assert(ta.skip(i as int).len() > 0 && tb.skip(i as int).len() > 0);
            assert(lex_lt(ta.skip(i as int), tb.skip(i as int), text_rel()) == text_rel()(ta[i as int], tb[i as int]));
            assert(text_rel()(ta[i as int], tb[i as int]) == r);
            assert(lex_lt(ta, tb, text_rel()) == r);
            return r;
        }
        assert(ta.skip(i as int).drop_first() =~= ta.skip(i + 1));
        assert(tb.skip(i as int).drop_first() =~= tb.skip(i + 1));
        i = i + 1;
    }
    i < a.len()
}

/// Whether two symbols are equal.
pub fn part_eq(a: &RulePart, b: &RulePart) -> (r: bool)
    ensures
        r == (a@ == b@),
{
    match (a, b) {
        (RulePart::Term(x), RulePart::Term(y)) => text_eq(x, y),
        (RulePart::NonTerm(x), RulePart::NonTerm(y)) => text_eq(x, y),
        (RulePart::Recurse, RulePart::Recurse) => true,
        (RulePart::Not(x), RulePart::Not(y)) => texts_eq(x, y),
        _ => false,
    }
}

/// Whether symbol `a` sorts before `b` in the canonical order.
pub fn part_less(a: &RulePart, b: &RulePart) -> (r: bool)
    ensures
        r == sym_lt(a@, b@),
{
    match (a, b) {
        (RulePart::Term(x), RulePart::Term(y)) => {
            let nx = x.as_str().unicode_len();
            let ny = y.as_str().unicode_len();
            nx > ny || (nx == ny && text_less(x, y))
        },
        (RulePart::NonTerm(x), RulePart::NonTerm(y)) => text_less(x, y),
        (RulePart::Not(x), RulePart::Not(y)) => texts_less(x, y),
        _ => rank(a) < rank(b),
    }
}

fn rank(a: &RulePart) -> (r: u8)
    ensures
        r as int == sym_rank(a@),
{
    match a {
        RulePart::Recurse => 0,
        RulePart::Term(_) => 1,
        RulePart::NonTerm(_) => 2,
        RulePart::Not(_) => 3,
    }
}

/// Whether the alternative `a` sorts before `b` in the canonical order.
pub fn parts_less(a: &Vec<RulePart>, b: &Vec<RulePart>) -> (r: bool)
    ensures
        r == syms_lt(syms(a@), syms(b@)),
{
    let ghost sa = syms(a@);
    let ghost sb = syms(b@);
    let mut i: usize = 0;
    assert(sa.skip(0) =~= sa);
    assert(sb.skip(0) =~= sb);
    while i < a.len() && i < b.len()
        invariant
            i <= a.len(),
            i <= b.len(),
            sa == syms(a@),
            sb == syms(b@),
            lex_lt(sa, sb, sym_rel()) == lex_lt(sa.skip(i as int), sb.skip(i as int), sym_rel()),
        decreases a.len() - i,
    {
        if !part_eq(&a[i], &b[i]) {
            assert(sa.skip(i as int)[0] == sa[i as int]);
            assert(sb.skip(i as int)[0] == sb[i as int]);
            assert(sa[i as int] == a@[i as int]@);
            assert(sb[i as int] == b@[i as int]@);
            let r = part_less(&a[i], &b[i]);
            assert(sym_rel()(sa[i as int], sb[i as int]) == sym_lt(sa[i as int], sb[i as int]));
            assert(sa.skip(i as int).len() > 0 && sb.skip(i as int).len() > 0);
            assert(lex_lt(sa.skip(i as int), sb.skip(i as int), sym_rel()) == sym_rel()(sa[i as int], sb[i as int]));
            assert(sym_rel()(sa[i as int], sb[i as int]) == r);
            assert(lex_lt(sa, sb, sym_rel()) == r);
            return r;
        }
        assert(sa.skip(i as int).drop_first() =~= sa.skip(i + 1));
        assert(sb.skip(i as int).drop_first() =~= sb.skip(i + 1));
        i = i + 1;
    }
    i < a.len()
}

/// A node of a compiled decision forest: a symbol with the ordered
/// alternatives that may follow it, or the end of an alternative with the
/// index of its action, if it has one.
#[derive(Debug)]
pub enum RuleTree {
    Part { part: RulePart, nexts: Vec<RuleTree> },
    End { transformer: Option<usize> },
}

/// A production before compilation: the rule's name, its symbols, and the
/// index of the action that turns the matched children into a value.
#[derive(Debug)]
pub struct Rule {
    pub name: String,
    pub parts: Vec<RulePart>,
    pub transformer: Option<usize>,
}

/// An alternative being compiled: its symbols, its action, and its place in
/// declaration order.
pub struct Alt {
    pub parts: Vec<RulePart>,
    pub transformer: Option<usize>,
    pub index: usize,
}

/// An alternative as a mathematical value.
pub struct AltModel {
    pub syms: Seq<Sym>,
    pub action: Option<usize>,
    pub index: nat,
}

impl View for Alt {
    type V = AltModel;

    open spec fn view(&self) -> AltModel {
        AltModel { syms: syms(self.parts@), action: self.transformer, index: self.index as nat }
    }
}

pub open spec fn alt_models(v: Seq<Alt>) -> Seq<AltModel> {
    v.map_values(|a: Alt| a@)
}

/// What decides whether two symbols share a node: the symbol itself, but
/// negative lookaheads all count as one.
pub open spec fn key_of(s: Sym) -> Sym {
    match s {
        Sym::Not(_) => Sym::Not(seq![]),
        _ => s,
    }
}

/// The keys of an alternative's symbols.
pub open spec fn keys(a: Seq<Sym>) -> Seq<Sym> {
    a.map_values(|s: Sym| key_of(s))
}

/// The symbols of each alternative, without actions or places.
pub open spec fn erase(s: Seq<AltModel>) -> Seq<Seq<Sym>> {
    s.map_values(|a: AltModel| a.syms)
}

/// The symbols of each list of parts.
pub open spec fn parts_syms(v: Seq<Vec<RulePart>>) -> Seq<Seq<Sym>> {
    v.map_values(|p: Vec<RulePart>| syms(p@))
}

/// The alternative `c` continues the keys `p`: it starts with symbols
/// of those keys.
pub open spec fn under(c: Seq<Sym>, p: Seq<Sym>) -> bool {
    p.len() <= c.len() && keys(c).take(p.len() as int) == p
}

/// `d` is the length of the longest alternative of `e` that continues `p`.
pub open spec fn is_depth(e: Seq<Seq<Sym>>, p: Seq<Sym>, d: nat) -> bool {
    &&& exists|k: int| 0 <= k < e.len() && under(#[trigger] e[k], p) && e[k].len() == d
    &&& forall|k: int| 0 <= k < e.len() && under(#[trigger] e[k], p) ==> e[k].len() <= d
}

/// The length of the longest alternative of `e` that continues `p`: how
/// far the node for `p` reaches into its continuations.
pub open spec fn group_depth(e: Seq<Seq<Sym>>, p: Seq<Sym>) -> nat {
    if exists|d: nat| is_depth(e, p, d) {
        choose|d: nat| is_depth(e, p, d)
    } else {
        0
    }
}

pub proof fn lemma_depth_unique(e: Seq<Seq<Sym>>, p: Seq<Sym>, d: nat)
    requires
        is_depth(e, p, d),
    ensures
        group_depth(e, p) == d,
{
    let c = group_depth(e, p);
    assert(exists|d: nat| is_depth(e, p, d));
    assert(is_depth(e, p, c));
    let k1 = choose|k: int| 0 <= k < e.len() && under(#[trigger] e[k], p) && e[k].len() == d;
    let k2 = choose|k: int| 0 <= k < e.len() && under(#[trigger] e[k], p) && e[k].len() == c;
    assert(e[k1].len() <= c && e[k2].len() <= d);
}

/// The length of a literal key; 0 for any other.
pub open spec fn term_len(k: Sym) -> nat {
    match k {
        Sym::Term(t) => t.len(),
        _ => 0,
    }
}

/// Where a node stands among its siblings: its rank, its literal's length,
/// how far it reaches, and its key.
pub struct Weight {
    pub rank: int,
    pub len: nat,
    pub depth: nat,
    pub key: Sym,
}

/// The weight of the node that the `i`-th symbol of `a` stands in, among
/// the alternatives `e`.
pub open spec fn weight(e: Seq<Seq<Sym>>, a: Seq<Sym>, i: int) -> Weight {
    let k = key_of(a[i]);
    Weight { rank: sym_rank(k), len: term_len(k), depth: group_depth(e, keys(a).take(i + 1)), key: k }
}

/// The weights of the nodes along alternative `a`.
pub open spec fn weights(e: Seq<Seq<Sym>>, a: Seq<Sym>) -> Seq<Weight> {
    Seq::new(a.len(), |i: int| weight(e, a, i))
}

/// The order of sibling nodes: by rank (recursion, literals, rules,
/// negative lookahead); a longer literal first; then the node reaching
/// further into its continuations first; then by key.
pub open spec fn weight_lt(x: Weight, y: Weight) -> bool {
    if x.rank != y.rank {
        x.rank < y.rank
    } else if x.len != y.len {
        x.len > y.len
    } else if x.depth != y.depth {
        x.depth > y.depth
    } else {
        sym_lt(x.key, y.key)
    }
}

/// `weight_lt` as a relation.
pub open spec fn weight_rel() -> spec_fn(Weight, Weight) -> bool {
    |x: Weight, y: Weight| weight_lt(x, y)
}

pub proof fn lemma_weight_strict_total()
    ensures
        strict_total(weight_rel()),
{
    lemma_sym_strict_total();
    let l = sym_rel();
    let w = weight_rel();
    assert forall|x: Weight| !#[trigger] w(x, x) by {
        assert(!l(x.key, x.key));
    }
    assert forall|x: Weight, y: Weight, z: Weight| #[trigger] w(x, y) && #[trigger] w(y, z) implies w(x, z) by {
        assert(l(x.key, y.key) == sym_lt(x.key, y.key));
        assert(l(y.key, z.key) == sym_lt(y.key, z.key));
        assert(l(x.key, z.key) == sym_lt(x.key, z.key));
    }
    assert forall|x: Weight, y: Weight| x != y implies #[trigger] w(x, y) || #[trigger] w(y, x) by {
        assert(l(x.key, y.key) == sym_lt(x.key, y.key));
        assert(l(y.key, x.key) == sym_lt(y.key, x.key));
    }
}

/// The canonical order of alternatives among `e`: the nodes along them,
/// compared by weight from the root, an alternative sorting after every
/// longer one that it leads into; equal weights are ordered by the symbols
/// themselves.  Alternatives that share a node are thus next to each
/// other, and so are their continuations.
pub open spec fn order_lt(e: Seq<Seq<Sym>>, a: Seq<Sym>, b: Seq<Sym>) -> bool {
    lex_lt(weights(e, a), weights(e, b), weight_rel()) || (weights(e, a) == weights(e, b) && syms_lt(a, b))
}

/// `order_lt` as a relation.
pub open spec fn order_rel(e: Seq<Seq<Sym>>) -> spec_fn(Seq<Sym>, Seq<Sym>) -> bool {
    |a: Seq<Sym>, b: Seq<Sym>| order_lt(e, a, b)
}

pub proof fn lemma_order_strict_total(e: Seq<Seq<Sym>>)
    ensures
        strict_total(order_rel(e)),
{
    lemma_syms_strict_total();
    lemma_weight_strict_total();
    lemma_lex_strict_total(weight_rel());
    let l = syms_rel();
    let wl = |a: Seq<Weight>, b: Seq<Weight>| lex_lt(a, b, weight_rel());
    let o = order_rel(e);
    assert forall|x: Seq<Sym>| !#[trigger] o(x, x) by {
        assert(!l(x, x) && !wl(weights(e, x), weights(e, x)));
    }
    assert forall|x: Seq<Sym>, y: Seq<Sym>, z: Seq<Sym>| #[trigger] o(x, y) && #[trigger] o(y, z) implies o(x, z) by {
        assert(wl(weights(e, x), weights(e, y)) == lex_lt(weights(e, x), weights(e, y), weight_rel()));
        assert(wl(weights(e, y), weights(e, z)) == lex_lt(weights(e, y), weights(e, z), weight_rel()));
        assert(wl(weights(e, x), weights(e, z)) == lex_lt(weights(e, x), weights(e, z), weight_rel()));
        assert(l(x, y) == syms_lt(x, y));
        assert(l(y, z) == syms_lt(y, z));
        assert(l(x, z) == syms_lt(x, z));
    }
    assert forall|x: Seq<Sym>, y: Seq<Sym>| x != y implies #[trigger] o(x, y) || #[trigger] o(y, x) by {
        assert(wl(weights(e, x), weights(e, y)) == lex_lt(weights(e, x), weights(e, y), weight_rel()));
        assert(wl(weights(e, y), weights(e, x)) == lex_lt(weights(e, y), weights(e, x), weight_rel()));
        assert(l(x, y) == syms_lt(x, y));
        assert(l(y, x) == syms_lt(y, x));
    }
}

/// Canonical order of alternatives among `e`; equal symbol sequences keep
/// their declaration order.
pub open spec fn alt_lt(e: Seq<Seq<Sym>>, a: AltModel, b: AltModel) -> bool {
    order_lt(e, a.syms, b.syms) || (a.syms == b.syms && a.index < b.index)
}

pub open spec fn alts_sorted(e: Seq<Seq<Sym>>, s: Seq<AltModel>) -> bool {
    forall|i: int, j: int| 0 <= i < j < s.len() ==> #[trigger] alt_lt(e, s[i], s[j]) && #[trigger] s[j] == s[j]
}

proof fn lemma_alt_lt_transitive(e: Seq<Seq<Sym>>, a: AltModel, b: AltModel, c: AltModel)
    requires
        alt_lt(e, a, b),
        alt_lt(e, b, c),
    ensures
        alt_lt(e, a, c),
{
    lemma_order_strict_total(e);
    let l = order_rel(e);
    assert(l(a.syms, b.syms) == order_lt(e, a.syms, b.syms));
    assert(l(b.syms, c.syms) == order_lt(e, b.syms, c.syms));
    assert(l(a.syms, c.syms) == order_lt(e, a.syms, c.syms));
    assert(l(a.syms, a.syms) == order_lt(e, a.syms, a.syms));
}

proof fn lemma_alt_lt_total(e: Seq<Seq<Sym>>, a: AltModel, b: AltModel)
    requires
        a.index != b.index,
    ensures
        alt_lt(e, a, b) || alt_lt(e, b, a),
{
    lemma_order_strict_total(e);
    let l = order_rel(e);
    assert(l(a.syms, b.syms) == order_lt(e, a.syms, b.syms));
    assert(l(b.syms, a.syms) == order_lt(e, b.syms, a.syms));
}

/// Alternatives with the same members reach equally far.
pub proof fn lemma_depth_members(e1: Seq<Seq<Sym>>, e2: Seq<Seq<Sym>>, p: Seq<Sym>)
    requires
        forall|x: Seq<Sym>| e1.contains(x) <==> e2.contains(x),
    ensures
        group_depth(e1, p) == group_depth(e2, p),
{
    assert forall|d: nat| is_depth(e1, p, d) <==> is_depth(e2, p, d) by {
        if is_depth(e1, p, d) {
            let k = choose|k: int| 0 <= k < e1.len() && under(#[trigger] e1[k], p) && e1[k].len() == d;
            assert(e1.contains(e1[k]));
            assert(e2.contains(e1[k]));
            assert forall|k2: int| 0 <= k2 < e2.len() && under(#[trigger] e2[k2], p) implies e2[k2].len() <= d by {
                assert(e2.contains(e2[k2]));
                assert(e1.contains(e2[k2]));
            }
        }
        if is_depth(e2, p, d) {
            let k = choose|k: int| 0 <= k < e2.len() && under(#[trigger] e2[k], p) && e2[k].len() == d;
            assert(e2.contains(e2[k]));
            assert(e1.contains(e2[k]));
            assert forall|k1: int| 0 <= k1 < e1.len() && under(#[trigger] e1[k1], p) implies e1[k1].len() <= d by {
                assert(e1.contains(e1[k1]));
                assert(e2.contains(e1[k1]));
            }
        }
    }
    if exists|d: nat| is_depth(e1, p, d) {
        let d = choose|d: nat| is_depth(e1, p, d);
        lemma_depth_unique(e1, p, d);
        lemma_depth_unique(e2, p, d);
    }
}

pub proof fn lemma_same_key(a: Sym, b: Sym)
    ensures
        same_key(a, b) == (key_of(a) == key_of(b)),
{
}

/// Whether `c` continues the keys of the first `n` symbols of `a`.
fn continues(c: &Vec<RulePart>, a: &Vec<RulePart>, n: usize) -> (r: bool)
    requires
        n <= a@.len(),
    ensures
        r == under(syms(c@), keys(syms(a@)).take(n as int)),
{
    let ghost kc = keys(syms(c@));
    let ghost ka = keys(syms(a@));
    if c.len() < n {
        return false;
    }
    let mut j: usize = 0;
    while j < n
        invariant
            j <= n,
            n <= c@.len(),
            n <= a@.len(),
            kc == keys(syms(c@)),
            ka == keys(syms(a@)),
            forall|q: int| 0 <= q < j ==> kc[q] == ka[q],
        decreases n - j,
    {
        assert(kc[j as int] == key_of(c@[j as int]@) && ka[j as int] == key_of(a@[j as int]@));
        if !same_key_exec(&c[j], &a[j]) {
            assert(kc.take(n as int)[j as int] != ka.take(n as int)[j as int]);
            return false;
        }
        j = j + 1;
    }
    assert(kc.take(n as int) =~= ka.take(n as int));
    true
}

/// The length of the longest alternative among `all` that continues the
/// keys of the first `n` symbols of `a`.
fn depth_of(all: &Vec<Vec<RulePart>>, a: &Vec<RulePart>, n: usize) -> (d: usize)
    requires
        n <= a@.len(),
        parts_syms(all@).contains(syms(a@)),
    ensures
        d as nat == group_depth(parts_syms(all@), keys(syms(a@)).take(n as int)),
{
    let ghost e = parts_syms(all@);
    let ghost p = keys(syms(a@)).take(n as int);
    let mut d: usize = 0;
    let mut found = false;
    let mut k: usize = 0;
    while k < all.len()
        invariant
            k <= all@.len(),
            e == parts_syms(all@),
            n <= a@.len(),
            p == keys(syms(a@)).take(n as int),
            found ==> exists|q: int| 0 <= q < k && under(#[trigger] e[q], p) && e[q].len() == d,
            !found ==> forall|q: int| 0 <= q < k ==> !under(#[trigger] e[q], p),
            forall|q: int| 0 <= q < k && under(#[trigger] e[q], p) ==> e[q].len() <= d,
        decreases all.len() - k,
    {
        assert(e[k as int] == syms(all@[k as int]@));
        if continues(&all[k], a, n) {
            let l = all[k].len();
            assert(under(e[k as int], p) && e[k as int].len() == l);
            if !found || l > d {
                d = l;
                found = true;
            }
        }
        k = k + 1;
    }
    proof {
        let q0 = choose|q: int| 0 <= q < e.len() && e[q] == syms(a@);
        assert(keys(syms(a@)).take(n as int) == p);
        assert(under(e[q0], p));
        lemma_depth_unique(e, p, d as nat);
    }
    d
}

/// The length of a literal; 0 for any other symbol.
fn term_length(x: &RulePart) -> (r: usize)
    ensures
        r as nat == term_len(key_of(x@)),
{
    match x {
        RulePart::Term(t) => t.as_str().unicode_len(),
        _ => 0,
    }
}

/// Whether the `i`-th node along `a` sorts before the `i`-th along `b`.
fn weight_less(all: &Vec<Vec<RulePart>>, a: &Vec<RulePart>, b: &Vec<RulePart>, i: usize) -> (r: bool)
    requires
        i < a@.len(),
        i < b@.len(),
        parts_syms(all@).contains(syms(a@)),
        parts_syms(all@).contains(syms(b@)),
    ensures
        r == weight_lt(weight(parts_syms(all@), syms(a@), i as int), weight(parts_syms(all@), syms(b@), i as int)),
{
    let ghost x = a@[i as int]@;
    let ghost y = b@[i as int]@;
    assert(syms(a@)[i as int] == x && syms(b@)[i as int] == y);
    assert(sym_rank(key_of(x)) == sym_rank(x) && sym_rank(key_of(y)) == sym_rank(y));
    let ra = rank(&a[i]);
    let rb = rank(&b[i]);
    if ra != rb {
        return ra < rb;
    }
    let la = term_length(&a[i]);
    let lb = term_length(&b[i]);
    if la != lb {
        return la > lb;
    }
    assert(i < a.len());
    let next = i + 1;
    let da = depth_of(all, a, next);
    let db = depth_of(all, b, next);
    if da != db {
        return da > db;
    }
    let both_not = match (&a[i], &b[i]) {
        (RulePart::Not(_), RulePart::Not(_)) => true,
        _ => false,
    };
    !both_not && part_less(&a[i], &b[i])
}

/// Whether alternative `a` sorts before `b` among `all` (see `order_lt`).
fn order_less(all: &Vec<Vec<RulePart>>, a: &Vec<RulePart>, b: &Vec<RulePart>) -> (r: bool)
    requires
        parts_syms(all@).contains(syms(a@)),
        parts_syms(all@).contains(syms(b@)),
    ensures
        r == order_lt(parts_syms(all@), syms(a@), syms(b@)),
{
    let ghost e = parts_syms(all@);
    let ghost sa = syms(a@);
    let ghost sb = syms(b@);
    let ghost wa = weights(e, sa);
    let ghost wb = weights(e, sb);
    let ghost rel = weight_rel();
    let mut i: usize = 0;
    assert(wa.skip(0) =~= wa);
    assert(wb.skip(0) =~= wb);
    while i < a.len() && i < b.len() && same_key_exec(&a[i], &b[i])
        invariant
            i <= a@.len(),
            i <= b@.len(),
            e == parts_syms(all@),
            sa == syms(a@),
            sb == syms(b@),
            wa == weights(e, sa),
            wb == weights(e, sb),
            rel == weight_rel(),
            keys(sa).take(i as int) == keys(sb).take(i as int),
            lex_lt(wa, wb, rel) == lex_lt(wa.skip(i as int), wb.skip(i as int), rel),
        decreases a.len() - i,
    {
        assert(sa[i as int] == a@[i as int]@ && sb[i as int] == b@[i as int]@);
        assert(keys(sa).take(i + 1) =~= keys(sb).take(i + 1)) by {
            assert(keys(sa).take(i + 1) =~= keys(sa).take(i as int).push(key_of(sa[i as int])));
            assert(keys(sb).take(i + 1) =~= keys(sb).take(i as int).push(key_of(sb[i as int])));
        }
        assert(wa[i as int] == wb[i as int]);
        assert(wa.skip(i as int).drop_first() =~= wa.skip(i + 1));
        assert(wb.skip(i as int).drop_first() =~= wb.skip(i + 1));
        i = i + 1;
    }
    if i < a.len() && i < b.len() {
        assert(sa[i as int] == a@[i as int]@ && sb[i as int] == b@[i as int]@);
        assert(wa[i as int].key != wb[i as int].key);
        assert(wa != wb) by {
            assert(wa[i as int] != wb[i as int]);
        }
        assert(wa.skip(i as int)[0] == wa[i as int] && wb.skip(i as int)[0] == wb[i as int]);
        assert(lex_lt(wa.skip(i as int), wb.skip(i as int), rel) == rel(wa[i as int], wb[i as int]));
        let r = weight_less(all, a, b, i);
        assert(rel(wa[i as int], wb[i as int]) == weight_lt(wa[i as int], wb[i as int]));
        r
    } else if i == a.len() && i == b.len() {
        assert(keys(sa) =~= keys(sa).take(i as int));
        assert(keys(sb) =~= keys(sb).take(i as int));
        assert(wa =~= wb) by {
            assert forall|j: int| 0 <= j < wa.len() implies wa[j] == wb[j] by {
                assert(keys(sa).take(j + 1) =~= keys(sb).take(j + 1));
                assert(keys(sa)[j] == keys(sb)[j]);
            }
        }
        proof {
            lemma_lex_irreflexive(wa, rel);
        }
        parts_less(a, b)
    } else if i == a.len() {
        assert(wa.skip(i as int).len() == 0);
        assert(wa.len() != wb.len());
        false
    } else {
        assert(wb.skip(i as int).len() == 0 && wa.skip(i as int).len() > 0);
        assert(wa.len() != wb.len());
        true
    }
}

/// Whether alternative `a` sorts before `b` among `all`.
fn alt_less(all: &Vec<Vec<RulePart>>, a: &Alt, b: &Alt) -> (r: bool)
    requires
        parts_syms(all@).contains(a@.syms),
        parts_syms(all@).contains(b@.syms),
    ensures
        r == alt_lt(parts_syms(all@), a@, b@),
{
    proof {
        lemma_order_strict_total(parts_syms(all@));
    }
    let ghost l = order_rel(parts_syms(all@));
    assert(l(a@.syms, b@.syms) == order_lt(parts_syms(all@), a@.syms, b@.syms));
    assert(l(b@.syms, a@.syms) == order_lt(parts_syms(all@), b@.syms, a@.syms));
    assert(l(a@.syms, a@.syms) == order_lt(parts_syms(all@), a@.syms, a@.syms));
    if order_less(all, &a.parts, &b.parts) {
        true
    } else if order_less(all, &b.parts, &a.parts) {
        false
    } else {
        a.index < b.index
    }
}

/// Copies of the symbols of each alternative.
fn copy_alts_parts(v: &Vec<Alt>) -> (r: Vec<Vec<RulePart>>)
    ensures
        parts_syms(r@) == erase(alt_models(v@)),
{
    let mut r: Vec<Vec<RulePart>> = Vec::new();
    let mut i: usize = 0;
    while i < v.len()
        invariant
            i <= v@.len(),
            parts_syms(r@) == erase(alt_models(v@)).take(i as int),
        decreases v.len() - i,
    {
        let src = &v[i].parts;
        let mut w: Vec<RulePart> = Vec::new();
        let mut j: usize = 0;
        while j < src.len()
            invariant
                j <= src@.len(),
                syms(w@) == syms(src@).take(j as int),
            decreases src.len() - j,
        {
            let ghost before = w@;
            w.push(copy_part(&src[j]));
            assert(syms(w@) =~= syms(before).push(src@[j as int]@));
            assert(syms(src@).take(j + 1) =~= syms(src@).take(j as int).push(src@[j as int]@));
            j = j + 1;
        }
        assert(syms(src@).take(src@.len() as int) =~= syms(src@));
        let ghost before = r@;
        r.push(w);
        assert(parts_syms(r@) =~= parts_syms(before).push(syms(w@)));
        assert(erase(alt_models(v@)).take(i + 1) =~= erase(alt_models(v@)).take(i as int).push(v@[i as int]@.syms));
        i = i + 1;
    }
    assert(erase(alt_models(v@)).take(v@.len() as int) =~= erase(alt_models(v@)));
    r
}

/// Sorts alternatives into canonical order.
pub fn sort_alts(v: Vec<Alt>) -> (r: Vec<Alt>)
    requires
        forall|i: int| 0 <= i < v@.len() ==> #[trigger] v@[i].index == i,
    ensures
        alts_sorted(erase(alt_models(v@)), alt_models(r@)),
        alt_models(r@).to_multiset() == alt_models(v@).to_multiset(),
{
    broadcast use vstd::seq_lib::group_to_multiset_ensures;

    let all = copy_alts_parts(&v);
    let ghost e = erase(alt_models(v@));
    let ghost orig = alt_models(v@).to_multiset();
    let ghost ov = v@;
    let mut v = v;
    let mut out: Vec<Alt> = Vec::new();
    assert(alt_models(out@) =~= Seq::<AltModel>::empty());
    assert forall|i: int| 0 <= i < v@.len() implies e.contains((#[trigger] v@[i])@.syms) by {
        assert(e[i] == v@[i]@.syms);
    }
    while v.len() > 0
        invariant
            e == parts_syms(all@),
            forall|i: int| 0 <= i < v@.len() ==> #[trigger] v@[i].index == i,
            forall|q: int| 0 <= q < out@.len() ==> #[trigger] out@[q].index >= v@.len(),
            forall|i: int| 0 <= i < v@.len() ==> e.contains((#[trigger] v@[i])@.syms),
            forall|q: int| 0 <= q < out@.len() ==> e.contains((#[trigger] out@[q])@.syms),
            alts_sorted(e, alt_models(out@)),
            alt_models(out@).to_multiset().add(alt_models(v@).to_multiset()) == orig,
        decreases v.len(),
    {
        let ghost v0 = v@;
        let a = v.pop().unwrap();
        assert(a == v0[v0.len() - 1]);
        assert(alt_models(v0) =~= alt_models(v@).push(a@));
        let mut p: usize = 0;
        while p < out.len() && !alt_less(&all, &a, &out[p])
            invariant
                p <= out@.len(),
                e == parts_syms(all@),
                e.contains(a@.syms),
                forall|q: int| 0 <= q < out@.len() ==> e.contains((#[trigger] out@[q])@.syms),
                forall|q: int| 0 <= q < p ==> !alt_lt(e, a@, #[trigger] out@[q]@),
            decreases out.len() - p,
        {
            p = p + 1;
        }
        let ghost m0 = alt_models(out@);
        let ghost o0 = out@;
        proof {
            assert forall|q: int| 0 <= q < p implies alt_lt(e, #[trigger] m0[q], a@) by {
                assert(m0[q] == out@[q]@);
                lemma_alt_lt_total(e, a@, m0[q]);
            }
            assert forall|q: int| p <= q < m0.len() implies alt_lt(e, a@, #[trigger] m0[q]) by {
                assert(alt_lt(e, a@, m0[p as int]));
                if q > p {
                    assert(alt_lt(e, m0[p as int], m0[q]));
                    lemma_alt_lt_transitive(e, a@, m0[p as int], m0[q]);
                }
            }
        }
        out.insert(p, a);
        proof {
            let m1 = alt_models(out@);
            assert(m1 =~= m0.insert(p as int, a@));
            assert forall|i: int, j: int| 0 <= i < j < m1.len() implies #[trigger] alt_lt(e, m1[i], m1[j])
                && #[trigger] m1[j] == m1[j] by {
                if j < p {
                    assert(alt_lt(e, m0[i], m0[j]) && m0[j] == m0[j]);
                } else if j == p {
                } else if i < p {
                    assert(alt_lt(e, m0[i], a@));
                    assert(alt_lt(e, a@, m0[j - 1]));
                    lemma_alt_lt_transitive(e, m0[i], a@, m0[j - 1]);
                } else if i == p {
                } else {
                    assert(alt_lt(e, m0[i - 1], m0[j - 1]) && m0[j - 1] == m0[j - 1]);
                }
            }
            assert forall|q: int| 0 <= q < out@.len() implies e.contains((#[trigger] out@[q])@.syms) by {
                if q < p {
                    assert(out@[q] == o0[q]);
                } else if q > p {
                    assert(out@[q] == o0[q - 1]);
                }
            }
            vstd::seq_lib::to_multiset_insert(m0, p as int, a@);
            assert(m1.to_multiset() == m0.to_multiset().insert(a@));
            vstd::seq_lib::to_multiset_build(alt_models(v@), a@);
            assert(alt_models(v0).to_multiset() == alt_models(v@).to_multiset().insert(a@));
            assert(m1.to_multiset().add(alt_models(v@).to_multiset()) =~= m0.to_multiset().add(
                alt_models(v0).to_multiset(),
            ));
        }
    }
    assert(alt_models(v@) =~= Seq::<AltModel>::empty());
    out
}

/// Two alternatives starting with these symbols share a node: the symbols
/// are equal, or both are negative lookaheads (whose literals then merge).
pub open spec fn same_key(a: Sym, b: Sym) -> bool {
    a == b || (a is Not && b is Not)
}

/// The number of symbols in all the alternatives.
pub open spec fn total_len(alts: Seq<AltModel>) -> nat
    decreases alts.len(),
{
    if alts.len() == 0 {
        0
    } else {
        alts[0].syms.len() + total_len(alts.drop_first())
    }
}

/// How many alternatives from the front start with a symbol of `h`'s key.
pub open spec fn run_len(alts: Seq<AltModel>, h: Sym) -> nat
    decreases alts.len(),
{
    if alts.len() > 0 && alts[0].syms.len() > 0 && same_key(alts[0].syms[0], h) {
        1 + run_len(alts.drop_first(), h)
    } else {
        0
    }
}

/// The alternatives without their first symbol.
pub open spec fn tails(alts: Seq<AltModel>) -> Seq<AltModel> {
    alts.map_values(
        |a: AltModel| AltModel { syms: a.syms.drop_first(), action: a.action, index: a.index },
    )
}

/// `acc` followed by the literals of `x` that it does not hold yet, in
/// order and each once.
pub open spec fn add_new(acc: Seq<Seq<char>>, x: Seq<Seq<char>>) -> Seq<Seq<char>>
    decreases x.len(),
{
    if x.len() == 0 {
        acc
    } else {
        add_new(
            if acc.contains(x[0]) {
                acc
            } else {
                acc.push(x[0])
            },
            x.drop_first(),
        )
    }
}

/// `acc` joined by the literals of the negative lookaheads that start the
/// alternatives: their union, in order of first appearance.
pub open spec fn not_union(acc: Seq<Seq<char>>, alts: Seq<AltModel>) -> Seq<Seq<char>>
    decreases alts.len(),
{
    if alts.len() == 0 {
        acc
    } else {
        let acc2 = match alts[0].syms[0] {
            Sym::Not(l) => add_new(acc, l),
            _ => acc,
        };
        not_union(acc2, alts.drop_first())
    }
}

/// Adds to `acc` the literals of `ls` that it does not hold yet.
fn add_literals(acc: &mut Vec<String>, ls: Vec<String>)
    ensures
        texts(final(acc)@) == add_new(texts(old(acc)@), texts(ls@)),
{
    let ghost goal = add_new(texts(acc@), texts(ls@));
    let mut ls = ls;
    let mut j: usize = 0;
    let n = ls.len();
    let ghost orig = ls@;
    assert(texts(orig).skip(0) =~= texts(ls@));
    while ls.len() > 0
        invariant
            n == orig.len(),
            j + ls@.len() == n,
            ls@ == orig.skip(j as int),
            goal == add_new(texts(acc@), texts(orig).skip(j as int)),
        decreases ls.len(),
    {
        let x = ls.remove(0);
        assert(x == orig[j as int]) by {
            assert(orig.skip(j as int)[0] == orig[j as int]);
        }
        let mut found = false;
        let mut q: usize = 0;
        while q < acc.len()
            invariant
                q <= acc@.len(),
                found == exists|t: int| 0 <= t < q && (#[trigger] acc@[t])@ == x@,
            decreases acc.len() - q,
        {
            if text_eq(&acc[q], &x) {
                found = true;
            }
            q = q + 1;
        }
        proof {
            let ta = texts(acc@);
            assert(texts(orig).skip(j as int).drop_first() =~= texts(orig).skip(j + 1));
            assert(texts(orig).skip(j as int)[0] == x@);
            if found {
                let t = choose|t: int| 0 <= t < q && (#[trigger] acc@[t])@ == x@;
                assert(ta[t] == x@);
                assert(ta.contains(x@));
            } else {
                assert forall|t: int| 0 <= t < ta.len() implies ta[t] != x@ by {
                    assert(ta[t] == acc@[t]@);
                }
                assert(!ta.contains(x@));
            }
        }
        if !found {
            let ghost before = acc@;
            acc.push(x);
            assert(texts(acc@) =~= texts(before).push(x@));
        }
        assert(ls@ =~= orig.skip(j + 1));
        j = j + 1;
    }
    assert(texts(orig).skip(n as int) =~= Seq::<Seq<char>>::empty());
}

/// The symbol of the node that a run of alternatives shares.
pub open spec fn group_head(run: Seq<AltModel>) -> Sym {
    match run[0].syms[0] {
        Sym::Not(_) => Sym::Not(not_union(seq![], run)),
        h => h,
    }
}

pub open spec fn forest_measure(alts: Seq<AltModel>) -> nat {
    total_len(alts) + alts.len()
}

/// `ts` is the forest that the alternatives `alts`, taken in order, compile
/// to: each run of alternatives that start with the same symbol shares one
/// node, whose continuations are the forest of what follows that symbol;
/// the first alternative with no symbols left ends the list, and later ones
/// are dropped.
pub open spec fn is_forest(ts: Seq<RuleTree>, alts: Seq<AltModel>) -> bool
    decreases forest_measure(alts),
{
    if alts.len() == 0 {
        ts.len() == 0
    } else if alts[0].syms.len() == 0 {
        ts.len() == 1 && ts[0] == (RuleTree::End { transformer: alts[0].action })
    } else {
        let k = run_len(alts, alts[0].syms[0]);
        let run = alts.take(k as int);
        proof {
            lemma_forest_decreases(alts);
        }
        &&& ts.len() > 0
        &&& ts[0] is Part
        &&& ts[0]->Part_part@ == group_head(run)
        &&& is_forest(ts[0]->Part_nexts@, tails(run))
        &&& is_forest(ts.drop_first(), alts.skip(k as int))
    }
}

pub proof fn lemma_total_len_split(a: Seq<AltModel>, k: int)
    requires
        0 <= k <= a.len(),
    ensures
        total_len(a) == total_len(a.take(k)) + total_len(a.skip(k)),
    decreases k,
{
    if k > 0 {
        lemma_total_len_split(a.drop_first(), k - 1);
        assert(a.take(k).drop_first() =~= a.drop_first().take(k - 1));
        assert(a.skip(k) =~= a.drop_first().skip(k - 1));
    } else {
        assert(a.skip(0) =~= a);
    }
}

pub proof fn lemma_run(alts: Seq<AltModel>, h: Sym)
    ensures
        run_len(alts, h) <= alts.len(),
        forall|i: int|
            0 <= i < run_len(alts, h) ==> (#[trigger] alts[i]).syms.len() > 0 && same_key(
                alts[i].syms[0],
                h,
            ),
        run_len(alts, h) < alts.len() ==> alts[run_len(alts, h) as int].syms.len() == 0 || !same_key(
            alts[run_len(alts, h) as int].syms[0],
            h,
        ),
    decreases alts.len(),
{
    if alts.len() > 0 && alts[0].syms.len() > 0 && same_key(alts[0].syms[0], h) {
        lemma_run(alts.drop_first(), h);
        if run_len(alts, h) < alts.len() {
            assert(alts[run_len(alts, h) as int] == alts.drop_first()[run_len(alts.drop_first(), h) as int]);
        }
        assert forall|i: int| 0 <= i < run_len(alts, h) implies (#[trigger] alts[i]).syms.len() > 0
            && same_key(alts[i].syms[0], h) by {
            if i > 0 {
                assert(alts[i] == alts.drop_first()[i - 1]);
            }
        }
    }
}

pub proof fn lemma_tails_len(run: Seq<AltModel>)
    requires
        forall|i: int| 0 <= i < run.len() ==> (#[trigger] run[i]).syms.len() > 0,
    ensures
        total_len(tails(run)) + run.len() == total_len(run),
    decreases run.len(),
{
    if run.len() > 0 {
        assert(tails(run).drop_first() =~= tails(run.drop_first()));
        assert forall|i: int| 0 <= i < run.drop_first().len() implies (
        #[trigger] run.drop_first()[i]).syms.len() > 0 by {
            assert(run.drop_first()[i] == run[i + 1]);
        }
        lemma_tails_len(run.drop_first());
    }
}

pub proof fn lemma_forest_decreases(alts: Seq<AltModel>)
    requires
        alts.len() > 0,
        alts[0].syms.len() > 0,
    ensures
        run_len(alts, alts[0].syms[0]) >= 1,
        forest_measure(tails(alts.take(run_len(alts, alts[0].syms[0]) as int))) < forest_measure(
            alts,
        ),
        forest_measure(alts.skip(run_len(alts, alts[0].syms[0]) as int)) < forest_measure(alts),
{
    let h = alts[0].syms[0];
    let k = run_len(alts, h);
    lemma_run(alts, h);
    let run = alts.take(k as int);
    lemma_total_len_split(alts, k as int);
    assert forall|i: int| 0 <= i < run.len() implies (#[trigger] run[i]).syms.len() > 0 by {
        assert(run[i] == alts[i]);
    }
    lemma_tails_len(run);
}

pub proof fn lemma_run_exact(alts: Seq<AltModel>, h: Sym, k: nat)
    requires
        k <= alts.len(),
        forall|i: int| 0 <= i < k ==> (#[trigger] alts[i]).syms.len() > 0 && same_key(alts[i].syms[0], h),
        k == alts.len() || alts[k as int].syms.len() == 0 || !same_key(alts[k as int].syms[0], h),
    ensures
        run_len(alts, h) == k,
    decreases k,
{
    if k > 0 {
        assert forall|i: int| 0 <= i < k - 1 implies (#[trigger] alts.drop_first()[i]).syms.len() > 0
            && same_key(alts.drop_first()[i].syms[0], h) by {
            assert(alts.drop_first()[i] == alts[i + 1]);
        }
        if k < alts.len() {
            assert(alts.drop_first()[k - 1] == alts[k as int]);
        }
        lemma_run_exact(alts.drop_first(), h, (k - 1) as nat);
    }
}

/// Whether alternatives starting with `a` and with `b` share a node.
fn same_key_exec(a: &RulePart, b: &RulePart) -> (r: bool)
    ensures
        r == same_key(a@, b@),
{
    match (a, b) {
        (RulePart::Not(_), RulePart::Not(_)) => true,
        _ => part_eq(a, b),
    }
}

/// Compiles alternatives, taken in the order given, into a forest.
pub fn build_forest(alts: Vec<Alt>) -> (r: Vec<RuleTree>)
    ensures
        is_forest(r@, alt_models(alts@)),
    decreases forest_measure(alt_models(alts@)),
{
    let ghost m = alt_models(alts@);
    if alts.len() == 0 {
        return Vec::new();
    }
    if alts[0].parts.len() == 0 {
        let t = alts[0].transformer;
        let mut r = Vec::new();
        r.push(RuleTree::End { transformer: t });
        return r;
    }
    let ghost h = m[0].syms[0];
    assert(alts@[0].parts@[0]@ == h);
    let mut k: usize = 1;
    while k < alts.len() && alts[k].parts.len() > 0 && same_key_exec(&alts[k].parts[0], &alts[0].parts[0])
        invariant
            1 <= k <= alts@.len(),
            m == alt_models(alts@),
            h == m[0].syms[0],
            forall|i: int| 0 <= i < k ==> (#[trigger] m[i]).syms.len() > 0 && same_key(m[i].syms[0], h),
        decreases alts.len() - k,
    {
        assert(m[k as int].syms[0] == alts@[k as int].parts@[0]@);
        k = k + 1;
    }
    proof {
        if k < alts@.len() && m[k as int].syms.len() > 0 {
            assert(m[k as int].syms[0] == alts@[k as int].parts@[0]@);
        }
        lemma_run_exact(m, h, k as nat);
        lemma_forest_decreases(m);
    }
    let mut run = alts;
    let rest = run.split_off(k);
    let ghost rm = m.take(k as int);
    assert(alt_models(run@) =~= rm);
    assert(alt_models(rest@) =~= m.skip(k as int));
    let first = run.remove(0);
    assert(first@ == rm[0]);
    let Alt { parts: mut parts, transformer, index } = first;
    let ghost p0 = parts@;
    let head_sym = parts.remove(0);
    assert(syms(parts@) =~= syms(p0).drop_first());
    let mut tails_v: Vec<Alt> = Vec::new();
    tails_v.push(Alt { parts, transformer, index });
    let mut lits: Vec<String> = Vec::new();
    let is_not = match head_sym {
        RulePart::Not(_) => true,
        _ => false,
    };
    assert(texts(lits@) =~= Seq::<Seq<char>>::empty());
    let head = match head_sym {
        RulePart::Not(ls) => {
            add_literals(&mut lits, ls);
            RulePart::Not(Vec::new())
        },
        other => other,
    };
    assert(not_union(seq![], rm) == not_union(texts(lits@), rm.skip(1))) by {
        assert(rm.drop_first() =~= rm.skip(1));
    }
    assert(alt_models(tails_v@) =~= tails(rm.take(1)));
    let mut i: usize = 1;
    while run.len() > 0
        invariant
            1 <= i <= k,
            rm.len() == k,
            alt_models(run@) == rm.skip(i as int),
            alt_models(tails_v@) == tails(rm.take(i as int)),
            not_union(seq![], rm) == not_union(texts(lits@), rm.skip(i as int)),
            forall|j: int| 0 <= j < rm.len() ==> (#[trigger] rm[j]).syms.len() > 0 && same_key(rm[j].syms[0], h),
            is_not == (h is Not),
        decreases run.len(),
    {
        let a = run.remove(0);
        let ghost am = rm[i as int];
        assert(a@ == am) by {
            assert(rm.skip(i as int)[0] == am);
        }
        let Alt { parts: mut parts, transformer, index } = a;
        let ghost p0 = parts@;
        let sym = parts.remove(0);
        assert(syms(parts@) =~= syms(p0).drop_first());
        let ghost before = lits@;
        match sym {
            RulePart::Not(ls) => {
                add_literals(&mut lits, ls);
            },
            _ => {},
        }
        tails_v.push(Alt { parts, transformer, index });
        proof {
            assert(rm.skip(i as int).drop_first() =~= rm.skip(i + 1));
            assert(rm.skip(i as int)[0] == am);
            assert(rm.take(i + 1) =~= rm.take(i as int).push(am));
            assert(tails(rm.take(i + 1)) =~= tails(rm.take(i as int)).push(
                AltModel { syms: am.syms.drop_first(), action: am.action, index: am.index },
            ));
            assert(alt_models(tails_v@) =~= tails(rm.take(i + 1)));
            assert(alt_models(run@) =~= rm.skip(i + 1));
        }
        i = i + 1;
    }
    let head = if is_not {
        RulePart::Not(lits)
    } else {
        head
    };
    assert(i == k);
    assert(rm.take(k as int) =~= rm);
    assert(rm.skip(k as int) =~= Seq::<AltModel>::empty());
    assert(head@ == group_head(rm));
    let nexts = build_forest(tails_v);
    let mut others = build_forest(rest);
    let ghost o = others@;
    let mut r: Vec<RuleTree> = Vec::new();
    r.push(RuleTree::Part { part: head, nexts });
    r.append(&mut others);
    assert(r@.drop_first() =~= o);
    r
}

/// The two forests have the same shape: tree by tree, equal symbols along
/// the same branches, whatever actions their ends hold.
pub open spec fn same_forest(a: Seq<RuleTree>, b: Seq<RuleTree>) -> bool
    decreases a,
{
    if a.len() == 0 || b.len() == 0 {
        a.len() == b.len()
    } else {
        &&& match (a[0], b[0]) {
            (RuleTree::End { .. }, RuleTree::End { .. }) => true,
            (RuleTree::Part { part: part1, nexts: n1 }, RuleTree::Part { part: part2, nexts: n2 }) => {
                proof {
                    lemma_nexts_decrease(a);
                }
                part1@ == part2@ && same_forest(n1@, n2@)
            },
            _ => false,
        }
        &&& same_forest(a.drop_first(), b.drop_first())
    }
}

pub proof fn lemma_nexts_decrease(a: Seq<RuleTree>)
    requires
        a.len() > 0,
        a[0] is Part,
    ensures
        decreases_to!(a => a[0]->Part_nexts@),
{
    let n = a[0]->Part_nexts;
    assert(decreases_to!(a => a[0]));
    assert(decreases_to!(a[0] => a[0]->Part_nexts));
    vstd::std_specs::vec::axiom_vec_decreases_to_view(n);
    assert(decreases_to!(n => n@));
}

/// The two trees have the same shape.
pub open spec fn same_shape(a: RuleTree, b: RuleTree) -> bool {
    same_forest(seq![a], seq![b])
}

pub proof fn lemma_same_forest_len(a: Seq<RuleTree>, b: Seq<RuleTree>)
    requires
        same_forest(a, b),
    ensures
        a.len() == b.len(),
    decreases a.len(),
{
    if a.len() > 0 && b.len() > 0 {
        lemma_same_forest_len(a.drop_first(), b.drop_first());
    }
}

/// Whether the two forests have the same shape.
fn forests_equivalent(a: &Vec<RuleTree>, b: &Vec<RuleTree>) -> (r: bool)
    ensures
        r == same_forest(a@, b@),
    decreases a,
{
    if a.len() != b.len() {
        proof {
            if same_forest(a@, b@) {
                lemma_same_forest_len(a@, b@);
            }
        }
        return false;
    }
    let mut i: usize = a.len();
    let mut ok = true;
    assert(a@.skip(i as int) =~= Seq::<RuleTree>::empty());
    assert(b@.skip(i as int) =~= Seq::<RuleTree>::empty());
    while i > 0
        invariant
            a.len() == b.len(),
            i <= a.len(),
            ok == same_forest(a@.skip(i as int), b@.skip(i as int)),
        decreases i,
    {
        let k = i - 1;
        proof {
            vstd::std_specs::vec::axiom_vec_decreases_to_view(*a);
            assert(decreases_to!(*a => a@));
            assert(decreases_to!(a@ => a@[k as int]));
        }
        let head = match (&a[k], &b[k]) {
            (RuleTree::End { .. }, RuleTree::End { .. }) => true,
            (RuleTree::Part { part: part1, nexts: n1 }, RuleTree::Part { part: part2, nexts: n2 }) => {
                proof {
                    assert(decreases_to!(a@[k as int] => a@[k as int]->Part_nexts));
                }
                part_eq(part1, part2) && forests_equivalent(n1, n2)
            },
            _ => false,
        };
        assert(a@.skip(k as int).drop_first() =~= a@.skip(i as int));
        assert(b@.skip(k as int).drop_first() =~= b@.skip(i as int));
        assert(a@.skip(k as int)[0] == a@[k as int]);
        assert(b@.skip(k as int)[0] == b@[k as int]);
        ok = head && ok;
        i = k;
    }
    assert(a@.skip(0) =~= a@);
    assert(b@.skip(0) =~= b@);
    ok
}

/// The two nodes stand for the same thing, whatever follows them: both
/// ends, or both the same symbol.
pub open spec fn same_head(a: RuleTree, b: RuleTree) -> bool {
    match (a, b) {
        (RuleTree::End { .. }, RuleTree::End { .. }) => true,
        (RuleTree::Part { part: p1, .. }, RuleTree::Part { part: p2, .. }) => p1@ == p2@,
        _ => false,
    }
}

impl RuleTree {
    /// Whether the two nodes stand for the same thing, their continuations
    /// aside (see `same_head`).
    pub fn equivalent(&self, other: &RuleTree) -> (r: bool)
        ensures
            r == same_head(*self, *other),
    {
        match (self, other) {
            (RuleTree::End { .. }, RuleTree::End { .. }) => true,
            (RuleTree::Part { part: part1, .. }, RuleTree::Part { part: part2, .. }) => part_eq(part1, part2),
            _ => false,
        }
    }

    /// Whether the two trees have the same shape (see `same_forest`).
    pub fn same_shape_as(&self, other: &RuleTree) -> (r: bool)
        ensures
            r == same_shape(*self, *other),
    {
        let ghost a = seq![*self];
        let ghost b = seq![*other];
        assert(a.drop_first() =~= Seq::<RuleTree>::empty());
        assert(b.drop_first() =~= Seq::<RuleTree>::empty());
        assert(a[0] == *self && b[0] == *other);
        assert(same_forest(a.drop_first(), b.drop_first()));
        match (self, other) {
            (RuleTree::End { .. }, RuleTree::End { .. }) => true,
            (RuleTree::Part { part: part1, nexts: n1 }, RuleTree::Part { part: part2, nexts: n2 }) => {
                part_eq(part1, part2) && forests_equivalent(n1, n2)
            },
            _ => false,
        }
    }
}

/// An alternative as a forest holds it: the symbols from a root to an end,
/// and that end's action.
pub type PathModel = (Seq<Sym>, Option<usize>);

/// The alternatives that a forest holds, tree by tree, in order.
pub open spec fn paths(ts: Seq<RuleTree>) -> Seq<PathModel>
    decreases ts,
{
    if ts.len() == 0 {
        seq![]
    } else {
        let first = match ts[0] {
            RuleTree::End { transformer } => seq![(Seq::<Sym>::empty(), transformer)],
            RuleTree::Part { part, nexts } => {
                proof {
                    lemma_nexts_decrease(ts);
                }
                prefixed(part@, paths(nexts@))
            },
        };
        first + paths(ts.drop_first())
    }
}

/// The alternatives, each with `s` put in front.
pub open spec fn prefixed(s: Sym, ps: Seq<PathModel>) -> Seq<PathModel> {
    ps.map_values(|p: PathModel| (seq![s] + p.0, p.1))
}

/// An alternative with its symbols, held for recompiling.
pub type Path = (Vec<RulePart>, Option<usize>);

pub open spec fn path_models(v: Seq<Path>) -> Seq<PathModel> {
    v.map_values(|p: Path| (syms(p.0@), p.1))
}

/// A copy of a symbol.
pub fn copy_part(p: &RulePart) -> (r: RulePart)
    ensures
        r@ == p@,
{
    match p {
        RulePart::Term(s) => RulePart::Term(s.clone()),
        RulePart::NonTerm(s) => RulePart::NonTerm(s.clone()),
        RulePart::Recurse => RulePart::Recurse,
        RulePart::Not(v) => {
            let mut w: Vec<String> = Vec::new();
            let mut i: usize = 0;
            while i < v.len()
                invariant
                    i <= v@.len(),
                    texts(w@) == texts(v@).take(i as int),
                decreases v.len() - i,
            {
                let ghost before = w@;
                w.push(v[i].clone());
                assert(texts(w@) =~= texts(before).push(v@[i as int]@));
                assert(texts(v@).take(i + 1) =~= texts(v@).take(i as int).push(v@[i as int]@));
                i = i + 1;
            }
            assert(texts(v@).take(v@.len() as int) =~= texts(v@));
            RulePart::Not(w)
        },
    }
}

/// The alternatives that a forest holds (see `paths`).
pub fn flatten(ts: &Vec<RuleTree>) -> (r: Vec<Path>)
    ensures
        path_models(r@) == paths(ts@),
    decreases ts,
{
    let mut acc: Vec<Path> = Vec::new();
    let mut i: usize = ts.len();
    assert(ts@.skip(i as int) =~= Seq::<RuleTree>::empty());
    assert(path_models(acc@) =~= Seq::<PathModel>::empty());
    while i > 0
        invariant
            i <= ts@.len(),
            path_models(acc@) == paths(ts@.skip(i as int)),
        decreases i,
    {
        let k = i - 1;
        proof {
            vstd::std_specs::vec::axiom_vec_decreases_to_view(*ts);
            assert(decreases_to!(*ts => ts@));
            assert(decreases_to!(ts@ => ts@[k as int]));
        }
        let mut first: Vec<Path> = Vec::new();
        match &ts[k] {
            RuleTree::End { transformer } => {
                let none: Vec<RulePart> = Vec::new();
                assert(syms(none@) =~= Seq::<Sym>::empty());
                first.push((none, *transformer));
                assert(path_models(first@) =~= seq![(Seq::<Sym>::empty(), *transformer)]);
            },
            RuleTree::Part { part, nexts } => {
                proof {
                    assert(decreases_to!(ts@[k as int] => ts@[k as int]->Part_nexts));
                }
                let mut sub = flatten(nexts);
                let ghost subm = path_models(sub@);
                let mut q: usize = 0;
                let n = sub.len();
                let ghost orig = sub@;
                while sub.len() > 0
                    invariant
                        n == orig.len(),
                        q + sub@.len() == n,
                        sub@ == orig.skip(q as int),
                        subm == path_models(orig),
                        path_models(first@) == prefixed(part@, subm.take(q as int)),
                    decreases sub.len(),
                {
                    let (mut v, a) = sub.remove(0);
                    assert((v, a) == orig[q as int]) by {
                        assert(orig.skip(q as int)[0] == orig[q as int]);
                    }
                    let ghost v0 = v@;
                    v.insert(0, copy_part(part));
                    assert(syms(v@) =~= seq![part@] + syms(v0));
                    let ghost before = first@;
                    first.push((v, a));
                    assert(path_models(first@) =~= path_models(before).push((syms(v@), a)));
                    assert(subm.take(q + 1) =~= subm.take(q as int).push(subm[q as int]));
                    assert(prefixed(part@, subm.take(q + 1)) =~= prefixed(part@, subm.take(q as int)).push(
                        (seq![part@] + subm[q as int].0, subm[q as int].1),
                    ));
                    assert(sub@ =~= orig.skip(q + 1));
                    q = q + 1;
                }
                assert(subm.take(n as int) =~= subm);
            },
        }
        let ghost fm = path_models(first@);
        let ghost am = path_models(acc@);
        first.append(&mut acc);
        acc = first;
        proof {
            assert(path_models(acc@) =~= fm + am);
            assert(ts@.skip(k as int).drop_first() =~= ts@.skip(i as int));
            assert(ts@.skip(k as int)[0] == ts@[k as int]);
        }
        i = k;
    }
    assert(ts@.skip(0) =~= ts@);
    acc
}

} // verus!
