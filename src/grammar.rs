//! Compiled grammars: each rule name with its decision forest.
use vstd::prelude::*;

use crate::rule::{
    alt_models, alts_sorted, build_forest, erase, flatten, is_forest, path_models, paths, sort_alts, syms, Alt,
    AltModel, Path, PathModel, Rule, RulePart, RuleTree, Sym,
};

verus! {

/// A compiled grammar: rule names, each with its forest of alternatives.
pub struct Grammar {
    pub names: Vec<String>,
    pub forests: Vec<Vec<RuleTree>>,
}

/// Among the first `n` entries, the last one named `k` holds `f`.
pub open spec fn last_given(rules: Seq<(String, Vec<RuleTree>)>, n: int, k: Seq<char>, f: Vec<RuleTree>) -> bool {
    exists|j: int|
        0 <= j < n && rules[j].0@ == k && rules[j].1 == f && forall|j2: int| j < j2 < n ==> (#[trigger] rules[j2]).0@ != k
}

impl Grammar {
    /// One forest per name, and no name twice.
    pub open spec fn wf(&self) -> bool {
        &&& self.names@.len() == self.forests@.len()
        &&& forall|i: int, j: int|
            0 <= i < j < self.names@.len() ==> #[trigger] self.names@[i]@ != #[trigger] self.names@[j]@
    }

    /// Where the rule `k` stands, if it is defined.
    pub open spec fn defines(&self, k: Seq<char>, i: int) -> bool {
        0 <= i < self.names@.len() && self.names@[i]@ == k
    }

    pub open spec fn has_rule(&self, k: Seq<char>) -> bool {
        exists|i: int| self.defines(k, i)
    }

    /// A grammar with no rules.
    pub fn empty() -> (r: Grammar)
        ensures
            r.wf(),
            r.names@.len() == 0,
    {
        Grammar { names: Vec::new(), forests: Vec::new() }
    }

    /// A grammar holding the given rules; where a name comes twice, the
    /// later forest replaces the earlier.
    pub fn new(rules: Vec<(String, Vec<RuleTree>)>) -> (r: Grammar)
        ensures
            r.wf(),
            forall|k: Seq<char>| r.has_rule(k) <==> exists|j: int| 0 <= j < rules@.len() && (#[trigger] rules@[j]).0@ == k,
            forall|k: Seq<char>, i: int| r.defines(k, i) ==> last_given(rules@, rules@.len() as int, k, r.forests@[i]),
    {
        let mut g = Grammar::empty();
        let mut rules = rules;
        let ghost orig = rules@;
        let n = rules.len();
        let mut i: usize = 0;
        while rules.len() > 0
            invariant
                orig.len() == n,
                g.wf(),
                i + rules@.len() == orig.len(),
                rules@ == orig.skip(i as int),
                forall|k: Seq<char>| g.has_rule(k) <==> exists|j: int| 0 <= j < i && (#[trigger] orig[j]).0@ == k,
                forall|k: Seq<char>, q: int| #[trigger] g.defines(k, q) ==> last_given(orig, i as int, k, g.forests@[q]),
            decreases rules.len(),
        {
            let (k, t) = rules.remove(0);
            assert(orig[i as int] == (k, t)) by {
                assert(orig.skip(i as int)[0] == orig[i as int]);
            }
            let ghost kv = k@;
            let ghost tv = t;
            let ghost before = g;
            g.add_rule(k, t);
            proof {
                assert forall|kk: Seq<char>, q: int| #[trigger] g.defines(kk, q) implies last_given(orig, i + 1, kk, g.forests@[q]) by {
                    if kk == kv {
                        let q2 = choose|q2: int| g.defines(kv, q2) && g.forests@[q2] == tv;
                        if q != q2 {
                            assert(g.names@[q]@ == g.names@[q2]@);
                        }
                        assert(orig[i as int].0@ == kk && orig[i as int].1 == tv);
                    } else {
                        assert(before.has_rule(kk) == g.has_rule(kk));
                        assert(g.has_rule(kk));
                        let q0 = choose|q0: int| before.defines(kk, q0);
                        assert(g.defines(kk, q0) && g.forests@[q0] == before.forests@[q0]);
                        if q != q0 {
                            assert(g.names@[q]@ == g.names@[q0]@);
                        }
                        assert(last_given(orig, i as int, kk, before.forests@[q0]));
                        let j = choose|j: int| 0 <= j < i && orig[j].0@ == kk && orig[j].1 == before.forests@[q0] && forall|j2: int| j < j2 < i ==> (#[trigger] orig[j2]).0@ != kk;
                        assert forall|j2: int| j < j2 < i + 1 implies (#[trigger] orig[j2]).0@ != kk by {
                            if j2 == i {
                                assert(orig[i as int].0@ == kv);
                            }
                        }
                    }
                }
                assert(rules@ =~= orig.skip(i + 1));
                assert forall|q: Seq<char>| g.has_rule(q) <==> exists|j: int| 0 <= j < i + 1 && (#[trigger] orig[j]).0@ == q by {
                    if q != kv {
                        if exists|j: int| 0 <= j < i + 1 && (#[trigger] orig[j]).0@ == q {
                            let j = choose|j: int| 0 <= j < i + 1 && (#[trigger] orig[j]).0@ == q;
                            assert(j < i);
                        }
                    } else {
                        assert(orig[i as int].0@ == q);
                    }
                }
            }
            i = i + 1;
        }
        g
    }

    /// The index of rule `k`, if it is defined.
    pub fn find(&self, k: &str) -> (r: Option<usize>)
        requires
            self.wf(),
        ensures
            r is None <==> !self.has_rule(k@),
            r matches Some(i) ==> self.defines(k@, i as int),
    {
        let key = k.to_owned();
        let mut i: usize = 0;
        while i < self.names.len()
            invariant
                key@ == k@,
                self.wf(),
                i <= self.names@.len(),
                forall|j: int| 0 <= j < i ==> self.names@[j]@ != k@,
            decreases self.names.len() - i,
        {
            if self.names[i].eq(&key) {
                assert(self.defines(k@, i as int));
                return Some(i);
            }
            i = i + 1;
        }
        None
    }

    /// The forest of rule `k`, if it is defined.
    pub fn get_rule(&self, k: &str) -> (r: Option<&Vec<RuleTree>>)
        requires
            self.wf(),
        ensures
            r is None <==> !self.has_rule(k@),
            r matches Some(f) ==> exists|i: int| self.defines(k@, i) && *f == self.forests@[i],
    {
        match self.find(k) {
            Some(i) => Some(&self.forests[i]),
            None => None,
        }
    }

    /// Sets the forest of rule `k`, replacing the one it had.
    pub fn add_rule(&mut self, k: String, tree: Vec<RuleTree>)
        requires
            old(self).wf(),
        ensures
            final(self).wf(),
            final(self).has_rule(k@),
            exists|i: int| final(self).defines(k@, i) && final(self).forests@[i] == tree,
            forall|q: Seq<char>| q != k@ ==> (final(self).has_rule(q) <==> old(self).has_rule(q)),
            forall|q: Seq<char>, i: int| q != k@ && old(self).defines(q, i) ==> final(self).defines(q, i) && final(self).forests@[i] == old(self).forests@[i],
    {
        match self.find(k.as_str()) {
            Some(i) => {
                let ghost kv = k@;
                self.forests.set(i, tree);
                assert(self.names@ == old(self).names@);
                assert(self.defines(kv, i as int));
                assert forall|q: Seq<char>| q != kv implies (self.has_rule(q) <==> old(self).has_rule(q)) by {
                    if self.has_rule(q) {
                        let j = choose|j: int| self.defines(q, j);
                        assert(old(self).defines(q, j));
                    }
                    if old(self).has_rule(q) {
                        let j = choose|j: int| old(self).defines(q, j);
                        assert(self.defines(q, j));
                    }
                }
            },
            None => {
                let ghost kv = k@;
                assert forall|j: int| 0 <= j < self.names@.len() implies self.names@[j]@ != kv by {
                    if self.names@[j]@ == kv {
                        assert(self.defines(kv, j));
                    }
                }
                self.names.push(k);
                self.forests.push(tree);
                let ghost n = self.names@.len() - 1;
                assert(self.defines(kv, n));
                assert forall|q: Seq<char>| q != kv implies (self.has_rule(q) <==> old(self).has_rule(q)) by {
                    if self.has_rule(q) {
                        let i = choose|i: int| self.defines(q, i);
                        assert(old(self).defines(q, i));
                    }
                    if old(self).has_rule(q) {
                        let i = choose|i: int| old(self).defines(q, i);
                        assert(self.defines(q, i));
                    }
                }
            },
        }
    }
}

/// A `Recurse` marker written in an alternative of `name` stands for a call
/// of `name`.
pub open spec fn recurse_as_call(name: Seq<char>, s: Sym) -> Sym {
    if s is Recurse {
        Sym::NonTerm(name)
    } else {
        s
    }
}

/// The symbols of an alternative of `name` as compiled: every reference to
/// the rule itself is a call, but one in first place, which becomes the
/// left-recursion marker.
pub open spec fn normalize(name: Seq<char>, ss: Seq<Sym>) -> Seq<Sym> {
    let calls = ss.map_values(|s: Sym| recurse_as_call(name, s));
    if calls.len() > 0 && calls[0] == Sym::NonTerm(name) {
        calls.update(0, Sym::Recurse)
    } else {
        calls
    }
}

/// The alternatives of rule `n` among `rules`, in declaration order.
pub open spec fn alts_of(rules: Seq<Rule>, n: Seq<char>) -> Seq<AltModel>
    decreases rules.len(),
{
    if rules.len() == 0 {
        seq![]
    } else {
        let before = alts_of(rules.drop_last(), n);
        let r = rules.last();
        if r.name@ == n {
            before.push(
                AltModel { syms: normalize(n, syms(r.parts@)), action: r.transformer, index: before.len() },
            )
        } else {
            before
        }
    }
}

/// `f` is the forest that the alternatives compile to: the forest of the
/// same alternatives put in canonical order.
pub open spec fn compiled(f: Seq<RuleTree>, alts: Seq<AltModel>) -> bool {
    exists|s: Seq<AltModel>|
        #![trigger is_forest(f, s)]
        alts_sorted(erase(alts), s) && s.to_multiset() == alts.to_multiset() && is_forest(f, s)
}

/// Rewrites references of an alternative of `name` to the rule itself.
fn normalize_parts(name: &String, parts: Vec<RulePart>) -> (r: Vec<RulePart>)
    ensures
        syms(r@) == normalize(name@, syms(parts@)),
{
    let ghost calls = syms(parts@).map_values(|s: Sym| recurse_as_call(name@, s));
    let mut parts = parts;
    let mut out: Vec<RulePart> = Vec::new();
    let ghost orig = parts@;
    let mut i: usize = 0;
    let n = parts.len();
    while parts.len() > 0
        invariant
            orig.len() == n,
            i + parts@.len() == n,
            parts@ == orig.skip(i as int),
            calls == syms(orig).map_values(|s: Sym| recurse_as_call(name@, s)),
            syms(out@) == calls.take(i as int),
        decreases parts.len(),
    {
        let p = parts.remove(0);
        assert(p == orig[i as int]) by {
            assert(orig.skip(i as int)[0] == orig[i as int]);
        }
        let q = match p {
            RulePart::Recurse => RulePart::NonTerm(name.clone()),
            other => other,
        };
        assert(syms(orig)[i as int] == p@);
        assert(calls[i as int] == q@);
        let ghost qv = q@;
        let ghost before = out@;
        out.push(q);
        assert(syms(out@) =~= syms(before).push(qv));
        assert(calls.take(i + 1) =~= calls.take(i as int).push(calls[i as int]));
        assert(syms(out@) =~= calls.take(i + 1));
        assert(parts@ =~= orig.skip(i + 1));
        i = i + 1;
    }
    assert(calls.take(n as int) =~= calls);
    if out.len() > 0 {
        let is_self = match &out[0] {
            RulePart::NonTerm(m) => m.eq(name),
            _ => false,
        };
        if is_self {
            let mut rec = RulePart::Recurse;
            out.set_and_swap(0, &mut rec);
            assert(syms(out@) =~= calls.update(0, Sym::Recurse));
        }
    }
    out
}

/// Some name in `names` is `k`.
pub open spec fn names_have(names: Seq<String>, k: Seq<char>) -> bool {
    exists|a: int| 0 <= a < names.len() && #[trigger] names[a]@ == k
}

/// Some rule in `rules` is named `k`.
pub open spec fn rules_name(rules: Seq<Rule>, k: Seq<char>) -> bool {
    exists|j: int| 0 <= j < rules.len() && (#[trigger] rules[j]).name@ == k
}

/// A compiled grammar, built from a list of rules.
pub struct Rules {
    pub grammar: Grammar,
}

impl Rules {
    /// Compiles the rules: the alternatives of each name become one forest,
    /// in canonical order with shared prefixes merged.
    pub fn new(rules: Vec<Rule>) -> (r: Rules)
        ensures
            r.grammar.wf(),
            forall|k: Seq<char>| r.grammar.has_rule(k) <==> exists|j: int| 0 <= j < rules@.len() && (#[trigger] rules@[j]).name@ == k,
            forall|k: Seq<char>, i: int| r.grammar.defines(k, i) ==> compiled(r.grammar.forests@[i]@, alts_of(rules@, k)),
    {
        let ghost orig = rules@;
        let n = rules.len();
        let mut rules = rules;
        let mut names: Vec<String> = Vec::new();
        let mut groups: Vec<Vec<Alt>> = Vec::new();
        let mut i: usize = 0;
        while rules.len() > 0
            invariant
                orig.len() == n,
                i + rules@.len() == n,
                rules@ == orig.skip(i as int),
                names@.len() == groups@.len(),
                forall|a: int, b: int| 0 <= a < b < names@.len() ==> #[trigger] names@[a]@ != #[trigger] names@[b]@,
                forall|k: Seq<char>| #[trigger] names_have(names@, k) <==> rules_name(orig.take(i as int), k),
                forall|a: int| 0 <= a < names@.len() ==> alt_models((#[trigger] groups@[a])@) == alts_of(orig.take(i as int), names@[a]@),
                forall|a: int, q: int| 0 <= a < groups@.len() && 0 <= q < groups@[a]@.len() ==> (#[trigger] groups@[a]@[q]).index == q,
            decreases rules.len(),
        {
            let rule = rules.remove(0);
            assert(rule == orig[i as int]) by {
                assert(orig.skip(i as int)[0] == orig[i as int]);
            }
            let Rule { name, parts, transformer } = rule;
            let parts = normalize_parts(&name, parts);
            let mut j: usize = 0;
            while j < names.len() && !names[j].eq(&name)
                invariant
                    j <= names@.len(),
                    forall|a: int| 0 <= a < j ==> names@[a]@ != name@,
                decreases names.len() - j,
            {
                j = j + 1;
            }
            let ghost tk = orig.take(i + 1);
            let ghost old_names = names@;
            assert(tk.drop_last() =~= orig.take(i as int));
            assert(tk.last() == orig[i as int]);
            if j == names.len() {
                assert(!names_have(names@, name@));
                assert(alts_of(orig.take(i as int), name@) =~= Seq::<AltModel>::empty()) by {
                    assert forall|q: int| 0 <= q < orig.take(i as int).len() implies (#[trigger] orig.take(i as int)[q]).name@ != name@ by {
                        if orig.take(i as int)[q].name@ == name@ {
                            assert(rules_name(orig.take(i as int), name@));
                        }
                    }
                    lemma_alts_of_absent(orig.take(i as int), name@);
                }
                names.push(name.clone());
                groups.push(Vec::new());
            }
            let mut grp: Vec<Alt> = Vec::new();
            groups.set_and_swap(j, &mut grp);
            let idx = grp.len();
            grp.push(Alt { parts, transformer, index: idx });
            groups.set_and_swap(j, &mut grp);
            proof {
                assert forall|a: int| 0 <= a < names@.len() implies alt_models((#[trigger] groups@[a])@) == alts_of(tk, names@[a]@) by {
                    if a == j {
                        assert(alt_models(groups@[a]@) =~= alts_of(orig.take(i as int), name@).push(
                            AltModel { syms: normalize(name@, syms(orig[i as int].parts@)), action: transformer, index: idx as nat },
                        ));
                    } else {
                        assert(names@[a]@ != name@);
                    }
                }
                assert(names_have(names@, name@)) by {
                    assert(names@[j as int]@ == name@);
                }
                assert forall|k: Seq<char>| #[trigger] names_have(names@, k) <==> rules_name(tk, k) by {
                    let ti = orig.take(i as int);
                    assert(rules_name(tk, k) <==> (rules_name(ti, k) || k == name@)) by {
                        if rules_name(tk, k) && k != name@ {
                            let q = choose|q: int| 0 <= q < tk.len() && (#[trigger] tk[q]).name@ == k;
                            assert(ti[q] == tk[q]);
                        }
                        if rules_name(ti, k) {
                            let q = choose|q: int| 0 <= q < ti.len() && (#[trigger] ti[q]).name@ == k;
                            assert(ti[q] == tk[q]);
                        }
                        if k == name@ {
                            assert(tk[i as int].name@ == k);
                        }
                    }
                    assert(names_have(names@, k) <==> (names_have(old_names, k) || k == name@)) by {
                        if names_have(names@, k) && k != name@ {
                            let a = choose|a: int| 0 <= a < names@.len() && #[trigger] names@[a]@ == k;
                            assert(old_names[a]@ == k);
                        }
                        if names_have(old_names, k) {
                            let a = choose|a: int| 0 <= a < old_names.len() && #[trigger] old_names[a]@ == k;
                            assert(names@[a]@ == k);
                        }
                    }
                }
                assert(rules@ =~= orig.skip(i + 1));
            }
            i = i + 1;
        }
        assert(orig.take(n as int) =~= orig);
        let mut grammar = Grammar { names: Vec::new(), forests: Vec::new() };
        let ghost all_names = names@;
        let ghost all_groups = groups@;
        let mut names = names;
        let mut groups = groups;
        let mut forests: Vec<Vec<RuleTree>> = Vec::new();
        let mut t: usize = 0;
        let m = groups.len();
        while groups.len() > 0
            invariant
                all_groups.len() == m,
                t + groups@.len() == m,
                groups@ == all_groups.skip(t as int),
                forests@.len() == t,
                forall|a: int| 0 <= a < t ==> compiled((#[trigger] forests@[a])@, alt_models(all_groups[a]@)),
                forall|a: int, q: int| 0 <= a < all_groups.len() && 0 <= q < all_groups[a]@.len() ==> (#[trigger] all_groups[a]@[q]).index == q,
            decreases groups.len(),
        {
            let grp = groups.remove(0);
            assert(grp == all_groups[t as int]) by {
                assert(all_groups.skip(t as int)[0] == all_groups[t as int]);
            }
            let sorted = sort_alts(grp);
            let ghost s = alt_models(sorted@);
            let f = build_forest(sorted);
            assert(is_forest(f@, s));
            forests.push(f);
            assert(groups@ =~= all_groups.skip(t + 1));
            t = t + 1;
        }
        grammar.names = names;
        grammar.forests = forests;
        proof {
            assert forall|k: Seq<char>| grammar.has_rule(k) <==> exists|j: int| 0 <= j < orig.len() && (#[trigger] orig[j]).name@ == k by {
                assert(grammar.has_rule(k) <==> names_have(all_names, k)) by {
                    if grammar.has_rule(k) {
                        let a = choose|a: int| grammar.defines(k, a);
                        assert(all_names[a]@ == k);
                    }
                    if names_have(all_names, k) {
                        let a = choose|a: int| 0 <= a < all_names.len() && #[trigger] all_names[a]@ == k;
                        assert(grammar.defines(k, a));
                    }
                }
                assert(rules_name(orig.take(n as int), k) == rules_name(orig, k));
            }
            assert(groups@ =~= Seq::<Vec<Alt>>::empty());
        }
        Rules { grammar }
    }
}

pub proof fn lemma_alts_of_absent(rules: Seq<Rule>, n: Seq<char>)
    requires
        forall|j: int| 0 <= j < rules.len() ==> (#[trigger] rules[j]).name@ != n,
    ensures
        alts_of(rules, n) == Seq::<AltModel>::empty(),
    decreases rules.len(),
{
    if rules.len() > 0 {
        assert forall|j: int| 0 <= j < rules.drop_last().len() implies (#[trigger] rules.drop_last()[j]).name@ != n by {
            assert(rules.drop_last()[j] == rules[j]);
        }
        lemma_alts_of_absent(rules.drop_last(), n);
    }
}

/// The name `n` inside the namespace `ns`: `ns::n`.
pub open spec fn qualified(ns: Seq<char>, n: Seq<char>) -> Seq<char> {
    ns + seq![':', ':'] + n
}

/// The name that an imported rule `n` gets.
pub open spec fn import_name(ns: Option<Seq<char>>, n: Seq<char>) -> Seq<char> {
    match ns {
        Some(x) => qualified(x, n),
        None => n,
    }
}

/// A symbol of an imported rule: calls go into the namespace.
pub open spec fn rename_sym(ns: Option<Seq<char>>, s: Sym) -> Sym {
    match s {
        Sym::NonTerm(n) => Sym::NonTerm(import_name(ns, n)),
        _ => s,
    }
}

/// The alternatives of an imported forest, with calls renamed.
pub open spec fn imported_paths(ns: Option<Seq<char>>, f: Seq<RuleTree>) -> Seq<PathModel> {
    paths(f).map_values(|p: PathModel| (p.0.map_values(|s: Sym| rename_sym(ns, s)), p.1))
}

/// Alternatives numbered in order.
pub open spec fn indexed(ps: Seq<PathModel>) -> Seq<AltModel> {
    Seq::new(ps.len(), |i: int| AltModel { syms: ps[i].0, action: ps[i].1, index: i as nat })
}

/// The alternatives that rule `k` of `g` holds; none if it has no rule `k`.
pub open spec fn rule_paths(g: Grammar, k: Seq<char>) -> Seq<PathModel> {
    if g.has_rule(k) {
        paths(g.forests@[(choose|i: int| g.defines(k, i))]@)
    } else {
        seq![]
    }
}

/// Some rule of `other` is imported under the name `k`.
pub open spec fn imports(other: Grammar, ns: Option<Seq<char>>, k: Seq<char>) -> bool {
    exists|j: int| 0 <= j < other.names@.len() && import_name(ns, #[trigger] other.names@[j]@) == k
}

/// Rule `q` of `other` is in `g` under its imported name, compiled with
/// the alternatives that `og` had under that name.
pub open spec fn import_done(g: Grammar, og: Grammar, other: Grammar, ns: Option<Seq<char>>, q: int) -> bool {
    let k = import_name(ns, other.names@[q]@);
    exists|i: int| g.defines(k, i) && compiled(
        g.forests@[i]@,
        indexed(rule_paths(og, k) + imported_paths(ns, other.forests@[q]@)),
    )
}

/// One of the first `j` rules of `other` is imported under the name `k`.
pub open spec fn imported_before(other: Grammar, ns: Option<Seq<char>>, j: int, k: Seq<char>) -> bool {
    exists|q: int| 0 <= q < j && import_name(ns, #[trigger] other.names@[q]@) == k
}

pub proof fn lemma_import_name_injective(ns: Option<Seq<char>>, a: Seq<char>, b: Seq<char>)
    requires
        import_name(ns, a) == import_name(ns, b),
    ensures
        a == b,
{
    if let Some(x) = ns {
        let p = x + seq![':', ':'];
        assert(qualified(x, a) =~= p + a);
        assert(qualified(x, b) =~= p + b);
        assert(a =~= (p + a).skip(p.len() as int));
        assert(b =~= (p + b).skip(p.len() as int));
    }
}

/// `ns::n`.
fn qualify(ns: &String, n: &String) -> (r: String)
    ensures
        r@ == qualified(ns@, n@),
{
    proof {
        reveal_strlit("::");
    }
    let sep = "::";
    assert(sep@ =~= seq![':', ':']);
    ns.clone().concat(sep).concat(n.as_str())
}

/// A symbol of an imported rule, with its call renamed.
fn rename_part(ns: &Option<String>, p: RulePart) -> (r: RulePart)
    ensures
        r@ == rename_sym(name_view(*ns), p@),
{
    match p {
        RulePart::NonTerm(n) => match ns {
            Some(x) => RulePart::NonTerm(qualify(x, &n)),
            None => RulePart::NonTerm(n),
        },
        other => other,
    }
}

pub open spec fn name_view(ns: Option<String>) -> Option<Seq<char>> {
    match ns {
        Some(x) => Some(x@),
        None => None,
    }
}

/// Compiles numbered alternatives into a forest.
fn compile(ps: Vec<Path>) -> (r: Vec<RuleTree>)
    ensures
        compiled(r@, indexed(path_models(ps@))),
{
    let ghost pm = path_models(ps@);
    let mut ps = ps;
    let mut alts: Vec<Alt> = Vec::new();
    let n = ps.len();
    let ghost orig = ps@;
    let mut i: usize = 0;
    while ps.len() > 0
        invariant
            n == orig.len(),
            i + ps@.len() == n,
            ps@ == orig.skip(i as int),
            pm == path_models(orig),
            alt_models(alts@) == indexed(pm).take(i as int),
            forall|q: int| 0 <= q < alts@.len() ==> #[trigger] alts@[q].index == q,
        decreases ps.len(),
    {
        let (parts, transformer) = ps.remove(0);
        assert((parts, transformer) == orig[i as int]) by {
            assert(orig.skip(i as int)[0] == orig[i as int]);
        }
        let ghost before = alts@;
        alts.push(Alt { parts, transformer, index: i });
        assert(alt_models(alts@) =~= alt_models(before).push(alts@[i as int]@));
        assert(indexed(pm).take(i + 1) =~= indexed(pm).take(i as int).push(indexed(pm)[i as int]));
        assert(ps@ =~= orig.skip(i + 1));
        i = i + 1;
    }
    assert(indexed(pm).take(n as int) =~= indexed(pm));
    let sorted = sort_alts(alts);
    let ghost s = alt_models(sorted@);
    let f = build_forest(sorted);
    assert(is_forest(f@, s));
    f
}

impl Rules {
    /// Adds the rules of `other`, each under the namespace `name` if one is
    /// given (`name::rule`, with every call inside renamed alike).  Where a
    /// rule of that name is there already, the alternatives of both are
    /// compiled together, its own first.
    pub fn import(&mut self, other: Rules, name: Option<String>)
        requires
            old(self).grammar.wf(),
            other.grammar.wf(),
        ensures
            final(self).grammar.wf(),
            forall|k: Seq<char>| final(self).grammar.has_rule(k) <==> (old(self).grammar.has_rule(k)
                || imports(other.grammar, name_view(name), k)),
            forall|j: int| 0 <= j < other.grammar.names@.len() ==> #[trigger] import_done(
                final(self).grammar,
                old(self).grammar,
                other.grammar,
                name_view(name),
                j,
            ),
            forall|k: Seq<char>, i: int| old(self).grammar.defines(k, i) && !imports(other.grammar, name_view(name), k)
                ==> final(self).grammar.defines(k, i) && final(self).grammar.forests@[i] == old(self).grammar.forests@[i],
    {
        let ghost og = self.grammar;
        let ghost ot = other.grammar;
        let ghost ns = name_view(name);
        let Rules { grammar: Grammar { names: mut names, forests: mut forests } } = other;
        let n = names.len();
        let mut j: usize = 0;
        while names.len() > 0
            invariant
                n == ot.names@.len(),
                ot.wf(),
                ns == name_view(name),
                j + names@.len() == n,
                names@ == ot.names@.skip(j as int),
                forests@ == ot.forests@.skip(j as int),
                self.grammar.wf(),
                forall|k: Seq<char>| #[trigger] self.grammar.has_rule(k) <==> (og.has_rule(k)
                    || imported_before(ot, ns, j as int, k)),
                forall|q: int| 0 <= q < j ==> #[trigger] import_done(self.grammar, og, ot, ns, q),
                forall|k: Seq<char>, i: int| #[trigger] og.defines(k, i) && !imported_before(ot, ns, j as int, k)
                    ==> self.grammar.defines(k, i) && self.grammar.forests@[i] == og.forests@[i],
            decreases names.len(),
        {
            let nm = names.remove(0);
            let f = forests.remove(0);
            assert(nm == ot.names@[j as int]) by {
                assert(ot.names@.skip(j as int)[0] == ot.names@[j as int]);
            }
            assert(f == ot.forests@[j as int]) by {
                assert(ot.forests@.skip(j as int)[0] == ot.forests@[j as int]);
            }
            let key = match &name {
                Some(x) => qualify(x, &nm),
                None => nm,
            };
            let ghost k = key@;
            assert(k == import_name(ns, ot.names@[j as int]@));
            proof {
                assert forall|q: int| 0 <= q < j implies import_name(ns, #[trigger] ot.names@[q]@) != k by {
                    if import_name(ns, ot.names@[q]@) == k {
                        lemma_import_name_injective(ns, ot.names@[q]@, ot.names@[j as int]@);
                    }
                }
            }
            let mut ps: Vec<Path> = match self.grammar.find(key.as_str()) {
                Some(i) => {
                    proof {
                        assert(self.grammar.has_rule(k));
                        assert(og.has_rule(k));
                        let c = choose|c: int| og.defines(k, c);
                        assert(self.grammar.defines(k, c));
                        crate::parse::lemma_defines_unique(self.grammar, k, c, i as int);
                        assert(self.grammar.forests@[i as int] == og.forests@[c]);
                    }
                    flatten(&self.grammar.forests[i])
                },
                None => {
                    proof {
                        if og.has_rule(k) {
                            let c = choose|c: int| og.defines(k, c);
                            assert(self.grammar.defines(k, c));
                        }
                    }
                    let e: Vec<Path> = Vec::new();
                    assert(path_models(e@) =~= rule_paths(og, k));
                    e
                },
            };
            let mut add = flatten(&f);
            let ghost am = path_models(add@);
            let mut renamed: Vec<Path> = Vec::new();
            let mut q: usize = 0;
            let m = add.len();
            let ghost aorig = add@;
            while add.len() > 0
                invariant
                    m == aorig.len(),
                    q + add@.len() == m,
                    add@ == aorig.skip(q as int),
                    am == path_models(aorig),
                    ns == name_view(name),
                    path_models(renamed@) == am.map_values(|p: PathModel| (p.0.map_values(|s: Sym| rename_sym(ns, s)), p.1)).take(q as int),
                decreases add.len(),
            {
                let (parts, a) = add.remove(0);
                assert((parts, a) == aorig[q as int]) by {
                    assert(aorig.skip(q as int)[0] == aorig[q as int]);
                }
                let mut parts = parts;
                let mut out: Vec<RulePart> = Vec::new();
                let ghost porig = parts@;
                let pn = parts.len();
                let mut t: usize = 0;
                while parts.len() > 0
                    invariant
                        pn == porig.len(),
                        t + parts@.len() == pn,
                        parts@ == porig.skip(t as int),
                        ns == name_view(name),
                        syms(out@) == syms(porig).map_values(|s: Sym| rename_sym(ns, s)).take(t as int),
                    decreases parts.len(),
                {
                    let p = parts.remove(0);
                    assert(p == porig[t as int]) by {
                        assert(porig.skip(t as int)[0] == porig[t as int]);
                    }
                    let ghost before = out@;
                    out.push(rename_part(&name, p));
                    assert(syms(out@) =~= syms(before).push(rename_sym(ns, porig[t as int]@)));
                    assert(syms(porig).map_values(|s: Sym| rename_sym(ns, s)).take(t + 1) =~= syms(porig).map_values(
                        |s: Sym| rename_sym(ns, s),
                    ).take(t as int).push(rename_sym(ns, porig[t as int]@)));
                    assert(parts@ =~= porig.skip(t + 1));
                    t = t + 1;
                }
                assert(syms(porig).map_values(|s: Sym| rename_sym(ns, s)).take(pn as int) =~= syms(porig).map_values(
                    |s: Sym| rename_sym(ns, s),
                ));
                let ghost before = renamed@;
                renamed.push((out, a));
                assert(path_models(renamed@) =~= path_models(before).push((syms(out@), a)));
                assert(am.map_values(|p: PathModel| (p.0.map_values(|s: Sym| rename_sym(ns, s)), p.1)).take(q + 1)
                    =~= am.map_values(|p: PathModel| (p.0.map_values(|s: Sym| rename_sym(ns, s)), p.1)).take(
                    q as int,
                ).push((syms(porig).map_values(|s: Sym| rename_sym(ns, s)), a)));
                assert(add@ =~= aorig.skip(q + 1));
                q = q + 1;
            }
            assert(am.map_values(|p: PathModel| (p.0.map_values(|s: Sym| rename_sym(ns, s)), p.1)).take(m as int)
                =~= imported_paths(ns, f@));
            let ghost pm0 = path_models(ps@);
            let ghost rm0 = path_models(renamed@);
            ps.append(&mut renamed);
            assert(path_models(ps@) =~= pm0 + rm0);
            let forest = compile(ps);
            let ghost fv = forest;
            let ghost before = self.grammar;
            assert(pm0 == rule_paths(og, k));
            assert(rm0 == imported_paths(ns, ot.forests@[j as int]@));
            self.grammar.add_rule(key, forest);
            proof {
                assert forall|kk: Seq<char>| #[trigger] self.grammar.has_rule(kk) <==> (og.has_rule(kk)
                    || imported_before(ot, ns, j + 1, kk)) by {
                    if kk == k {
                        assert(import_name(ns, ot.names@[j as int]@) == kk);
                    } else {
                        if imported_before(ot, ns, j + 1, kk) {
                            let q = choose|q: int| 0 <= q < j + 1 && import_name(ns, #[trigger] ot.names@[q]@) == kk;
                            assert(q < j);
                        }
                    }
                }
                assert forall|qq: int| 0 <= qq < j + 1 implies #[trigger] import_done(self.grammar, og, ot, ns, qq) by {
                    let kk = import_name(ns, ot.names@[qq]@);
                    if qq == j {
                        let i = choose|i: int| self.grammar.defines(k, i) && self.grammar.forests@[i] == fv;
                        assert(self.grammar.defines(kk, i));
                    }
                    if qq < j {
                        assert(kk != k);
                        assert(import_done(before, og, ot, ns, qq));
                        let i = choose|i: int| before.defines(kk, i) && compiled(
                            before.forests@[i]@,
                            indexed(rule_paths(og, kk) + imported_paths(ns, ot.forests@[qq]@)),
                        );
                        assert(self.grammar.defines(kk, i));
                    }
                }
                assert forall|kk: Seq<char>, i: int| #[trigger] og.defines(kk, i) && !imported_before(ot, ns, j + 1, kk)
                    implies self.grammar.defines(kk, i) && self.grammar.forests@[i] == og.forests@[i] by {
                    assert(import_name(ns, ot.names@[j as int]@) == k);
                    assert(kk != k);
                    if imported_before(ot, ns, j as int, kk) {
                        let q = choose|q: int| 0 <= q < j && import_name(ns, #[trigger] ot.names@[q]@) == kk;
                        assert(imported_before(ot, ns, j + 1, kk));
                    }
                    assert(before.defines(kk, i));
                }
                assert(names@ =~= ot.names@.skip(j + 1));
                assert(forests@ =~= ot.forests@.skip(j + 1));
            }
            j = j + 1;
        }
        proof {
            assert forall|k: Seq<char>| imported_before(ot, ns, n as int, k) == imports(ot, ns, k) by {}

        }
    }
}

} // verus!
