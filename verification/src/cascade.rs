//! Selector matching against an element and its ancestors, and the cascade order
//! of the declarations that match.
use vstd::prelude::*;

use crate::css::pairs_view;
use crate::style::{Compound, CompoundV, Rule, Selector, SelectorV, Stylesheet, body_wf, opt_view, parse_decls, parse_decls_spec, strings_view};
use crate::text::{chars_of, lower, lower_of, split_whitespace, split_ws, string_of};

verus! {

/// What selector matching reads of an element: its lower-cased tag name, its `id`
/// attribute and the whitespace-separated tokens of its `class` attribute.
#[derive(Debug)]
pub struct ElementInfo {
    pub tag: String,
    pub id: Option<String>,
    pub classes: Vec<String>,
}

pub ghost struct ElementV {
    pub tag: Seq<char>,
    pub id: Option<Seq<char>>,
    pub classes: Seq<Seq<char>>,
}

impl View for ElementInfo {
    type V = ElementV;

    open spec fn view(&self) -> ElementV {
        ElementV { tag: self.tag@, id: opt_view(self.id), classes: strings_view(self.classes@) }
    }
}

pub open spec fn elements_view(v: Seq<ElementInfo>) -> Seq<ElementV> {
    v.map_values(|e: ElementInfo| e@)
}

pub open spec fn opt_str_view(o: Option<&str>) -> Option<Seq<char>> {
    match o {
        Some(s) => Some(s@),
        None => None,
    }
}

/// The class tokens of an optional `class` attribute.
pub open spec fn class_tokens(attr: Option<&str>) -> Seq<Seq<char>> {
    match attr {
        Some(s) => split_ws(s@),
        None => seq![],
    }
}

fn strings_of(parts: &Vec<Vec<char>>) -> (r: Vec<String>)
    ensures
        strings_view(r@) == parts@.map_values(|p: Vec<char>| p@),
{
    let mut r: Vec<String> = Vec::new();
    for k in 0..parts.len()
        invariant
            strings_view(r@) == parts@.take(k as int).map_values(|p: Vec<char>| p@),
    {
        let s = string_of(parts[k].as_slice());
        let ghost r0 = r@;
        r.push(s);
        assert(parts@.take(k + 1) =~= parts@.take(k as int).push(parts@[k as int]));
        assert(strings_view(r@) =~= strings_view(r0).push(s@));
    }
    assert(parts@.take(parts.len() as int) =~= parts@);
    r
}

impl ElementInfo {
    /// The element named `name` with the given `id` and `class` attributes.
    pub fn new(name: &str, id: Option<&str>, class_attr: Option<&str>) -> (e: ElementInfo)
        ensures
            e@.tag == lower(name@),
            e@.id == opt_str_view(id),
            e@.classes == class_tokens(class_attr),
    {
        let n = chars_of(name);
        let low = lower_of(n.as_slice());
        let tag = string_of(low.as_slice());
        let idv: Option<String> = match id {
            Some(s) => Some(s.to_string()),
            None => None,
        };
        let classes: Vec<String> = match class_attr {
            Some(s) => {
                let c = chars_of(s);
                let parts = split_whitespace(c.as_slice());
                strings_of(&parts)
            },
            None => Vec::new(),
        };
        proof {
            match class_attr {
                Some(s) => {},
                None => {
                    assert(strings_view(classes@) =~= Seq::<Seq<char>>::empty());
                },
            }
        }
        ElementInfo { tag, id: idv, classes }
    }
}

/// A compound selector holds of an element when its tag, id and every class agree.
pub open spec fn compound_ok(c: CompoundV, e: ElementV) -> bool {
    &&& (c.tag matches Some(t) ==> t == e.tag)
    &&& (c.id matches Some(i) ==> e.id == Some(i))
    &&& forall|k: int| 0 <= k < c.classes.len() ==> e.classes.contains(#[trigger] c.classes[k])
}

/// The first `k` compounds match ancestors from `anc[p]` outward, each taken at the
/// nearest ancestor that fits (the last of them first).
pub open spec fn chain_ok(cs: Seq<CompoundV>, k: int, anc: Seq<ElementV>, p: int) -> bool
    decreases k, anc.len() - p,
{
    if k <= 0 {
        true
    } else if p < 0 || p >= anc.len() {
        false
    } else if compound_ok(cs[k - 1], anc[p]) {
        chain_ok(cs, k - 1, anc, p + 1)
    } else {
        chain_ok(cs, k, anc, p + 1)
    }
}

/// A selector holds of an element with ancestors `anc` (nearest first): its last
/// compound fits the element and the others fit ancestors, in order outward.
pub open spec fn selector_ok(s: SelectorV, e: ElementV, anc: Seq<ElementV>) -> bool {
    &&& s.compounds.len() > 0
    &&& compound_ok(s.compounds.last(), e)
    &&& chain_ok(s.compounds, s.compounds.len() - 1, anc, 0)
}

/// `pos` places compound `i < k` at ancestor `pos[i]` (from `p` on), each where the
/// compound fits, farther out for earlier compounds.
pub open spec fn embeds(cs: Seq<CompoundV>, k: int, anc: Seq<ElementV>, p: int, pos: Seq<int>) -> bool {
    &&& pos.len() == k
    &&& forall|i: int| 0 <= i < k ==> p <= #[trigger] pos[i] < anc.len() && compound_ok(cs[i], anc[pos[i]])
    &&& forall|i: int, j: int| 0 <= i < j < k ==> #[trigger] pos[j] < #[trigger] pos[i]
}

/// Taking the nearest fitting ancestor for each compound finds a placement whenever
/// one exists: the descendant chain matches exactly when the compounds can be placed
/// on ancestors in order.
pub proof fn lemma_chain_ok_iff_embeds(cs: Seq<CompoundV>, k: int, anc: Seq<ElementV>, p: int)
    requires
        0 <= k <= cs.len(),
        0 <= p,
    ensures
        chain_ok(cs, k, anc, p) <==> exists|pos: Seq<int>| #[trigger] embeds(cs, k, anc, p, pos),
    decreases k, anc.len() - p,
{
    if k == 0 {
        assert(embeds(cs, k, anc, p, Seq::<int>::empty()));
    } else if p >= anc.len() {
        if exists|pos: Seq<int>| #[trigger] embeds(cs, k, anc, p, pos) {
            let pos = choose|pos: Seq<int>| #[trigger] embeds(cs, k, anc, p, pos);
            assert(p <= pos[k - 1] < anc.len());
        }
    } else if compound_ok(cs[k - 1], anc[p]) {
        lemma_chain_ok_iff_embeds(cs, k - 1, anc, p + 1);
        if chain_ok(cs, k, anc, p) {
            let q = choose|pos: Seq<int>| #[trigger] embeds(cs, k - 1, anc, p + 1, pos);
            let pos = q.push(p);
            assert forall|i: int| 0 <= i < k implies p <= #[trigger] pos[i] < anc.len() && compound_ok(cs[i], anc[pos[i]]) by {
                if i < k - 1 {
                    assert(pos[i] == q[i]);
                }
            }
            assert forall|i: int, j: int| 0 <= i < j < k implies #[trigger] pos[j] < #[trigger] pos[i] by {
                if j < k - 1 {
                    assert(pos[i] == q[i] && pos[j] == q[j]);
                } else {
                    assert(pos[i] == q[i]);
                }
            }
            assert(embeds(cs, k, anc, p, pos));
        }
        if exists|pos: Seq<int>| #[trigger] embeds(cs, k, anc, p, pos) {
            let pos = choose|pos: Seq<int>| #[trigger] embeds(cs, k, anc, p, pos);
            let q = pos.take(k - 1);
            assert forall|i: int| 0 <= i < k - 1 implies p + 1 <= #[trigger] q[i] < anc.len() && compound_ok(cs[i], anc[q[i]]) by {
                assert(q[i] == pos[i]);
                assert(pos[k - 1] < pos[i]);
                assert(p <= pos[k - 1]);
            }
            assert forall|i: int, j: int| 0 <= i < j < k - 1 implies #[trigger] q[j] < #[trigger] q[i] by {
                assert(q[i] == pos[i] && q[j] == pos[j]);
            }
            assert(embeds(cs, k - 1, anc, p + 1, q));
        }
    } else {
        lemma_chain_ok_iff_embeds(cs, k, anc, p + 1);
        if exists|pos: Seq<int>| #[trigger] embeds(cs, k, anc, p, pos) {
            let pos = choose|pos: Seq<int>| #[trigger] embeds(cs, k, anc, p, pos);
            assert(pos[k - 1] != p);
            assert forall|i: int| 0 <= i < k implies p + 1 <= #[trigger] pos[i] < anc.len() && compound_ok(cs[i], anc[pos[i]]) by {
                if i < k - 1 {
                    assert(pos[k - 1] < pos[i]);
                }
            }
            assert(embeds(cs, k, anc, p + 1, pos));
        }
        if chain_ok(cs, k, anc, p) {
            let pos = choose|pos: Seq<int>| #[trigger] embeds(cs, k, anc, p + 1, pos);
            assert(embeds(cs, k, anc, p, pos));
        }
    }
}

fn has_class(classes: &Vec<String>, c: &String) -> (b: bool)
    ensures
        b == strings_view(classes@).contains(c@),
{
    let mut k: usize = 0;
    while k < classes.len()
        invariant
            k <= classes.len(),
            forall|j: int| 0 <= j < k ==> classes@[j]@ != c@,
        decreases classes.len() - k,
    {
        if classes[k] == *c {
            proof {
                assert(strings_view(classes@)[k as int] == c@);
            }
            return true;
        }
        k += 1;
    }
    proof {
        if strings_view(classes@).contains(c@) {
            let j = choose|j: int| 0 <= j < strings_view(classes@).len() && strings_view(classes@)[j] == c@;
            assert(classes@[j]@ == c@);
        }
    }
    false
}

/// Whether the compound `c` holds of the element `e`.
pub fn compound_matches(c: &Compound, e: &ElementInfo) -> (b: bool)
    ensures
        b == compound_ok(c@, e@),
{
    match &c.tag {
        Some(t) => {
            if !(*t == e.tag) {
                return false;
            }
        },
        None => {},
    }
    match &c.id {
        Some(i) => match &e.id {
            Some(x) => {
                if !(*x == *i) {
                    return false;
                }
            },
            None => {
                return false;
            },
        },
        None => {},
    }
    let mut k: usize = 0;
    while k < c.classes.len()
        invariant
            k <= c.classes.len(),
            forall|j: int| 0 <= j < k ==> e@.classes.contains(#[trigger] c@.classes[j]),
        decreases c.classes.len() - k,
    {
        if !has_class(&e.classes, &c.classes[k]) {
            assert(c@.classes[k as int] == c.classes@[k as int]@);
            return false;
        }
        k += 1;
    }
    true
}

/// Whether `sel` matches the element `node` whose element ancestors are `ancestors`,
/// nearest first (descendant combinators only).
pub fn selector_matches(sel: &Selector, node: &ElementInfo, ancestors: &[ElementInfo]) -> (b: bool)
    requires
        sel@.compounds.len() > 0,
    ensures
        b == selector_ok(sel@, node@, elements_view(ancestors@)),
{
    let ghost cs = sel@.compounds;
    let ghost anc = elements_view(ancestors@);
    let last = sel.compounds.len() - 1;
    assert(cs[last as int] == sel.compounds@[last as int]@);
    if !compound_matches(&sel.compounds[last], node) {
        return false;
    }
    let n = ancestors.len();
    let mut idx = last;
    let mut cur: usize = 0;
    while idx > 0
        invariant
            idx <= last < sel.compounds@.len(),
            cs == sel@.compounds,
            last + 1 == cs.len(),
            anc == elements_view(ancestors@),
            n == ancestors@.len(),
            cur <= n,
            chain_ok(cs, last as int, anc, 0) == chain_ok(cs, idx as int, anc, cur as int),
        decreases idx,
    {
        idx -= 1;
        let want = &sel.compounds[idx];
        assert(cs[idx as int] == want@);
        let mut matched = false;
        while cur < n
            invariant_except_break
                idx < sel.compounds@.len(),
                cs == sel@.compounds,
                anc == elements_view(ancestors@),
                cs[idx as int] == want@,
                n == ancestors@.len(),
                cur <= n,
                !matched,
                chain_ok(cs, last as int, anc, 0) == chain_ok(cs, idx + 1, anc, cur as int),
            ensures
                cur <= n,
                matched ==> chain_ok(cs, last as int, anc, 0) == chain_ok(cs, idx as int, anc, cur as int),
                !matched ==> cur == n && chain_ok(cs, last as int, anc, 0) == chain_ok(cs, idx + 1, anc, cur as int),
            decreases n - cur,
        {
            let a = cur;
            cur += 1;
            assert(anc[a as int] == ancestors@[a as int]@);
            if compound_matches(want, &ancestors[a]) {
                matched = true;
                break;
            }
        }
        if !matched {
            assert(anc.len() == n);
            assert(cur == n);
            assert(!chain_ok(cs, idx + 1, anc, cur as int));
            assert(!chain_ok(cs, last as int, anc, 0));
            assert(cs.len() == last + 1);
            return false;
        }
    }
    true
}

/// Specificity order: ids, then classes, then tags.
pub open spec fn spec_lt(a: (u32, u32, u32), b: (u32, u32, u32)) -> bool {
    a.0 < b.0 || (a.0 == b.0 && (a.1 < b.1 || (a.1 == b.1 && a.2 < b.2)))
}

/// The highest specificity among the selectors that match, if any does.
pub open spec fn best_spec(sels: Seq<SelectorV>, e: ElementV, anc: Seq<ElementV>) -> Option<(u32, u32, u32)>
    decreases sels.len(),
{
    if sels.len() == 0 {
        None
    } else {
        let rest = best_spec(sels.drop_last(), e, anc);
        let s = sels.last();
        if selector_ok(s, e, anc) {
            match rest {
                Some(b) => if spec_lt(b, s.spec) {
                    Some(s.spec)
                } else {
                    Some(b)
                },
                None => Some(s.spec),
            }
        } else {
            rest
        }
    }
}

/// `best_spec` is the greatest specificity of a matching selector, and is missing
/// exactly when no selector matches.
pub proof fn lemma_best_spec(sels: Seq<SelectorV>, e: ElementV, anc: Seq<ElementV>)
    ensures
        best_spec(sels, e, anc) is None <==> forall|k: int| 0 <= k < sels.len() ==> !selector_ok(#[trigger] sels[k], e, anc),
        best_spec(sels, e, anc) matches Some(b) ==> {
            &&& exists|k: int| 0 <= k < sels.len() && selector_ok(#[trigger] sels[k], e, anc) && sels[k].spec == b
            &&& forall|k: int| 0 <= k < sels.len() && selector_ok(#[trigger] sels[k], e, anc) ==> !spec_lt(b, sels[k].spec)
        },
    decreases sels.len(),
{
    if sels.len() > 0 {
        let init = sels.drop_last();
        lemma_best_spec(init, e, anc);
        assert forall|k: int| 0 <= k < init.len() implies #[trigger] init[k] == sels[k] by {}
        let last = sels.len() - 1;
        if best_spec(sels, e, anc) is None {
            assert forall|k: int| 0 <= k < sels.len() implies !selector_ok(#[trigger] sels[k], e, anc) by {
                if k < last {
                    assert(init[k] == sels[k]);
                }
            }
        } else {
            if selector_ok(sels[last], e, anc) {
                assert(sels[last] == sels.last());
            } else {
                let b = best_spec(init, e, anc)->0;
                let w = choose|k: int| 0 <= k < init.len() && selector_ok(#[trigger] init[k], e, anc) && init[k].spec == b;
                assert(sels[w] == init[w]);
            }
            assert forall|k: int| 0 <= k < sels.len() && selector_ok(#[trigger] sels[k], e, anc) implies !spec_lt(best_spec(sels, e, anc)->0, sels[k].spec) by {
                if k < last {
                    assert(init[k] == sels[k]);
                }
            }
        }
    }
}

/// The highest specificity among `rule`'s selectors that match `node`, if any does.
fn rule_specificity(rule: &Rule, node: &ElementInfo, ancestors: &[ElementInfo]) -> (r: Option<(u32, u32, u32)>)
    requires
        body_wf(rule.body()),
    ensures
        r == best_spec(rule.body().selectors, node@, elements_view(ancestors@)),
{
    let ghost sels = rule.body().selectors;
    let ghost anc = elements_view(ancestors@);
    let mut best: Option<(u32, u32, u32)> = None;
    for k in 0..rule.selectors.len()
        invariant
            sels == rule.body().selectors,
            anc == elements_view(ancestors@),
            body_wf(rule.body()),
            best == best_spec(sels.take(k as int), node@, anc),
    {
        let sel = &rule.selectors[k];
        assert(sels[k as int] == sel@);
        assert(sels.take(k + 1).drop_last() =~= sels.take(k as int));
        if selector_matches(sel, node, ancestors) {
            let sp = sel.spec;
            best = match best {
                Some(b) => if b.0 < sp.0 || (b.0 == sp.0 && (b.1 < sp.1 || (b.1 == sp.1 && b.2 < sp.2))) {
                    Some(sp)
                } else {
                    Some(b)
                },
                None => Some(sp),
            };
        }
    }
    assert(sels.take(rule.selectors.len() as int) =~= sels);
    best
}

/// A rule that matched an element: its origin, the specificity it matched with, its
/// source order and its declarations.
#[derive(Clone, Copy, Debug)]
pub struct Matched<'a> {
    pub ua: bool,
    pub spec: (u32, u32, u32),
    pub order: usize,
    pub decls: &'a [(String, String)],
}

pub ghost struct MatchedV {
    pub ua: bool,
    pub spec: (u32, u32, u32),
    pub order: usize,
    pub decls: Seq<(Seq<char>, Seq<char>)>,
}

impl<'a> View for Matched<'a> {
    type V = MatchedV;

    open spec fn view(&self) -> MatchedV {
        MatchedV { ua: self.ua, spec: self.spec, order: self.order, decls: pairs_view(self.decls@) }
    }
}

pub open spec fn mviews<'a>(v: Seq<Matched<'a>>) -> Seq<MatchedV> {
    v.map_values(|m: Matched<'a>| m@)
}

/// The entries of the rules in `rules` that match, in rule order.
pub open spec fn matched_views(rules: Seq<Rule>, e: ElementV, anc: Seq<ElementV>) -> Seq<MatchedV>
    decreases rules.len(),
{
    if rules.len() == 0 {
        seq![]
    } else {
        let rest = matched_views(rules.drop_last(), e, anc);
        let r = rules.last();
        match best_spec(r.body().selectors, e, anc) {
            Some(sp) => rest.push(MatchedV { ua: r.ua, spec: sp, order: r.order, decls: r.body().decls }),
            None => rest,
        }
    }
}

impl Stylesheet {
    /// Append to `out` an entry for each rule with a selector matching `node`.
    pub fn matched<'a>(&'a self, node: &ElementInfo, ancestors: &[ElementInfo], out: &mut Vec<Matched<'a>>)
        requires
            self.wf(),
        ensures
            mviews(final(out)@) == mviews(old(out)@) + matched_views(self.rules@, node@, elements_view(ancestors@)),
    {
        let ghost o0 = mviews(out@);
        let ghost anc = elements_view(ancestors@);
        for k in 0..self.rules.len()
            invariant
                self.wf(),
                anc == elements_view(ancestors@),
                mviews(out@) == o0 + matched_views(self.rules@.take(k as int), node@, anc),
        {
            let rule = &self.rules[k];
            assert(self.rules@.take(k + 1).drop_last() =~= self.rules@.take(k as int));
            assert(body_wf(self.rules@[k as int].body()));
            let ghost before = mviews(out@);
            match rule_specificity(rule, node, ancestors) {
                Some(sp) => {
                    out.push(Matched { ua: rule.ua, spec: sp, order: rule.order, decls: rule.decls.as_slice() });
                    assert(mviews(out@) =~= before.push(out@.last()@));
                    assert(o0 + matched_views(self.rules@.take(k + 1), node@, anc) =~= (o0 + matched_views(self.rules@.take(k as int), node@, anc)).push(out@.last()@));
                },
                None => {},
            }
        }
        assert(self.rules@.take(self.rules.len() as int) =~= self.rules@);
    }
}

/// Cascade priority: author rules above user-agent ones, then higher specificity,
/// then later source order.
pub open spec fn key_lt(a: MatchedV, b: MatchedV) -> bool {
    ||| (a.ua && !b.ua)
    ||| (a.ua == b.ua && spec_lt(a.spec, b.spec))
    ||| (a.ua == b.ua && a.spec == b.spec && a.order < b.order)
}

/// The same cascade priority.
pub open spec fn key_eq(a: MatchedV, b: MatchedV) -> bool {
    a.ua == b.ua && a.spec == b.spec && a.order == b.order
}

/// `out` is `inp` reordered by `p` (`out[i] == inp[p[i]]`) into increasing priority,
/// with entries of equal priority kept in their input order.
pub open spec fn stable_perm(p: Seq<int>, out: Seq<MatchedV>, inp: Seq<MatchedV>) -> bool {
    &&& p.len() == inp.len()
    &&& out.len() == inp.len()
    &&& forall|i: int| 0 <= i < p.len() ==> 0 <= #[trigger] p[i] < inp.len() && out[i] == inp[p[i]]
    &&& forall|i: int, j: int| 0 <= i < j < p.len() ==> #[trigger] p[i] != #[trigger] p[j]
    &&& forall|i: int, j: int| 0 <= i < j < out.len() ==> !key_lt(#[trigger] out[j], #[trigger] out[i])
    &&& forall|i: int, j: int| 0 <= i < j < out.len() && key_eq(#[trigger] out[i], #[trigger] out[j]) ==> p[i] < p[j]
}

/// `out` is the stable sort of `inp` by cascade priority.
pub open spec fn stable_sorted(out: Seq<MatchedV>, inp: Seq<MatchedV>) -> bool {
    exists|p: Seq<int>| #[trigger] stable_perm(p, out, inp)
}

/// In cascade order an entry of higher priority always comes later, so it is applied
/// after (and wins over) every entry of lower priority; in particular author rules
/// come after user-agent rules.
pub proof fn lemma_priority_order(out: Seq<MatchedV>, inp: Seq<MatchedV>)
    requires
        stable_sorted(out, inp),
    ensures
        forall|i: int, j: int| 0 <= i < out.len() && 0 <= j < out.len() && key_lt(#[trigger] out[i], #[trigger] out[j]) ==> i < j,
        forall|i: int, j: int| 0 <= i < out.len() && 0 <= j < out.len() && (#[trigger] out[i]).ua && !(#[trigger] out[j]).ua ==> i < j,
{
    let p = choose|p: Seq<int>| #[trigger] stable_perm(p, out, inp);
    assert forall|i: int, j: int| 0 <= i < out.len() && 0 <= j < out.len() && key_lt(#[trigger] out[i], #[trigger] out[j]) implies i < j by {
        if j < i {
            assert(!key_lt(out[i], out[j]));
        }
    }
    assert forall|i: int, j: int| 0 <= i < out.len() && 0 <= j < out.len() && (#[trigger] out[i]).ua && !(#[trigger] out[j]).ua implies i < j by {
        assert(key_lt(out[i], out[j]));
    }
}

/// Within one origin, specificity decides the cascade order by ids first, then
/// classes, then tags, and source order breaks ties: of two entries of the same
/// origin, the one with more ids comes later whatever their class and tag counts;
/// with equal ids, more classes comes later whatever the tags; with equal ids and
/// classes, more tags comes later; with equal specificity, the later rule comes later.
pub proof fn lemma_specificity_order(out: Seq<MatchedV>, inp: Seq<MatchedV>, i: int, j: int)
    requires
        stable_sorted(out, inp),
        0 <= i < out.len(),
        0 <= j < out.len(),
        out[i].ua == out[j].ua,
    ensures
        out[i].spec.0 < out[j].spec.0 ==> i < j,
        out[i].spec.0 == out[j].spec.0 && out[i].spec.1 < out[j].spec.1 ==> i < j,
        out[i].spec.0 == out[j].spec.0 && out[i].spec.1 == out[j].spec.1 && out[i].spec.2 < out[j].spec.2 ==> i < j,
        out[i].spec.0 == out[j].spec.0 && out[i].spec.1 == out[j].spec.1 && out[i].spec.2 == out[j].spec.2
            && out[i].order < out[j].order ==> i < j,
{
    let p = choose|p: Seq<int>| #[trigger] stable_perm(p, out, inp);
    if j <= i {
        if j < i {
            assert(!key_lt(out[i], out[j]));
        }
    }
}

/// Among entries of the same origin, the cascade order never puts an entry with more
/// ids before one with fewer, nor (at equal ids) more classes before fewer, nor (at
/// equal ids and classes) more tags before fewer.
pub proof fn lemma_specificity_monotone(out: Seq<MatchedV>, inp: Seq<MatchedV>)
    requires
        stable_sorted(out, inp),
    ensures
        forall|i: int, j: int|
            0 <= i < j < out.len() && (#[trigger] out[i]).ua == (#[trigger] out[j]).ua ==> {
                ||| out[i].spec.0 < out[j].spec.0
                ||| out[i].spec.0 == out[j].spec.0 && out[i].spec.1 < out[j].spec.1
                ||| out[i].spec.0 == out[j].spec.0 && out[i].spec.1 == out[j].spec.1 && out[i].spec.2 <= out[j].spec.2
            },
{
    assert forall|i: int, j: int|
        0 <= i < j < out.len() && (#[trigger] out[i]).ua == (#[trigger] out[j]).ua implies {
            ||| out[i].spec.0 < out[j].spec.0
            ||| out[i].spec.0 == out[j].spec.0 && out[i].spec.1 < out[j].spec.1
            ||| out[i].spec.0 == out[j].spec.0 && out[i].spec.1 == out[j].spec.1 && out[i].spec.2 <= out[j].spec.2
        } by {
        lemma_specificity_order(out, inp, j, i);
    }
}

/// Input position `a` goes before `b` in a stable sort: lower priority, or equal
/// priority and earlier.
pub open spec fn goes_before(inp: Seq<MatchedV>, a: int, b: int) -> bool {
    key_lt(inp[a], inp[b]) || (key_eq(inp[a], inp[b]) && a < b)
}

/// A permutation of `0..n` without repeats takes every value.
proof fn lemma_perm_onto(p: Seq<int>, n: int, a: int)
    requires
        p.len() == n,
        forall|i: int| 0 <= i < n ==> 0 <= #[trigger] p[i] < n,
        forall|i: int, j: int| 0 <= i < j < n ==> #[trigger] p[i] != #[trigger] p[j],
        0 <= a < n,
    ensures
        exists|i: int| 0 <= i < n && p[i] == a,
{
    broadcast use vstd::seq_lib::seq_to_set_is_finite;
    assert(p.no_duplicates()) by {
        assert forall|i: int, j: int| 0 <= i < p.len() && 0 <= j < p.len() && i != j implies p[i] != p[j] by {
            if i < j {
                assert(p[i] != p[j]);
            } else {
                assert(p[j] != p[i]);
            }
        }
    }
    p.unique_seq_to_set();
    let range = vstd::set_lib::set_int_range(0, n);
    vstd::set_lib::lemma_int_range(0, n);
    assert(p.to_set().subset_of(range)) by {
        assert forall|x: int| p.to_set().contains(x) implies range.contains(x) by {
            let i = choose|i: int| 0 <= i < p.len() && p[i] == x;
            assert(0 <= p[i] < n);
        }
    }
    vstd::set_lib::lemma_subset_equality(p.to_set(), range);
    assert(range.contains(a));
    assert(p.to_set().contains(a));
}

proof fn lemma_perms_agree_below(p1: Seq<int>, p2: Seq<int>, out1: Seq<MatchedV>, out2: Seq<MatchedV>, inp: Seq<MatchedV>, i: int)
    requires
        stable_perm(p1, out1, inp),
        stable_perm(p2, out2, inp),
        0 <= i <= inp.len(),
    ensures
        forall|k: int| 0 <= k < i ==> #[trigger] p1[k] == p2[k],
    decreases i,
{
    if i > 0 {
        lemma_perms_agree_below(p1, p2, out1, out2, inp, i - 1);
        let k = i - 1;
        let n = inp.len() as int;
        let a = p1[k];
        let b = p2[k];
        if a != b {
            assert(out1[k] == inp[a] && out2[k] == inp[b]);
            if goes_before(inp, a, b) {
                lemma_perm_onto(p2, n, a);
                let j = choose|j: int| 0 <= j < n && p2[j] == a;
                if j < k {
                    assert(p1[j] == p2[j]);
                    assert(p1[j] != p1[k]);
                } else {
                    assert(j > k);
                    assert(!key_lt(out2[j], out2[k]));
                    assert(out2[j] == inp[a]);
                    if key_eq(out2[k], out2[j]) {
                        assert(p2[k] < p2[j]);
                    }
                }
            } else {
                lemma_perm_onto(p1, n, b);
                let j = choose|j: int| 0 <= j < n && p1[j] == b;
                if j < k {
                    assert(p1[j] == p2[j]);
                    assert(p2[j] != p2[k]);
                } else {
                    assert(j > k);
                    assert(!key_lt(out1[j], out1[k]));
                    assert(out1[j] == inp[b]);
                    if key_eq(out1[k], out1[j]) {
                        assert(p1[k] < p1[j]);
                    }
                }
            }
        }
    }
}

/// The cascade order is determined: two stable sorts of the same entries are equal.
pub proof fn lemma_stable_sort_unique(out1: Seq<MatchedV>, out2: Seq<MatchedV>, inp: Seq<MatchedV>)
    requires
        stable_sorted(out1, inp),
        stable_sorted(out2, inp),
    ensures
        out1 == out2,
{
    let p1 = choose|p: Seq<int>| #[trigger] stable_perm(p, out1, inp);
    let p2 = choose|p: Seq<int>| #[trigger] stable_perm(p, out2, inp);
    lemma_perms_agree_below(p1, p2, out1, out2, inp, inp.len() as int);
    assert forall|k: int| 0 <= k < out1.len() implies out1[k] == out2[k] by {
        assert(p1[k] == p2[k]);
    }
    assert(out1 =~= out2);
}

fn key_gt(a: &Matched, b: &Matched) -> (r: bool)
    ensures
        r == key_lt(b@, a@),
{
    (b.ua && !a.ua) || (b.ua == a.ua && (b.spec.0 < a.spec.0 || (b.spec.0 == a.spec.0 && (b.spec.1 < a.spec.1 || (
    b.spec.1 == a.spec.1 && b.spec.2 < a.spec.2))))) || (b.ua == a.ua && b.spec.0 == a.spec.0 && b.spec.1 == a.spec.1 && b.spec.2 == a.spec.2 && b.order < a.order)
}

/// Order matched entries by increasing cascade priority, keeping the input order
/// among entries of equal priority (so the winner comes last).
pub fn cascade_sort<'a>(items: &Vec<Matched<'a>>) -> (r: Vec<Matched<'a>>)
    ensures
        stable_sorted(mviews(r@), mviews(items@)),
{
    let ghost inp = mviews(items@);
    let mut out: Vec<Matched<'a>> = Vec::new();
    let ghost mut p: Seq<int> = seq![];
    let n = items.len();
    for k in 0..n
        invariant
            n == items@.len(),
            inp == mviews(items@),
            stable_perm(p, mviews(out@), inp.take(k as int)),
    {
        let x = items[k];
        let ghost vo = mviews(out@);
        let ghost xv = x@;
        assert(xv == inp[k as int]);
        let mut pos = out.len();
        while pos > 0
            invariant_except_break
                pos <= out@.len(),
                vo == mviews(out@),
                xv == x@,
                forall|t: int| pos <= t < vo.len() ==> key_lt(xv, #[trigger] vo[t]),
            ensures
                pos <= out@.len(),
                forall|t: int| pos <= t < vo.len() ==> key_lt(xv, #[trigger] vo[t]),
                pos > 0 ==> !key_lt(xv, vo[pos - 1]),
            decreases pos,
        {
            assert(vo[pos - 1] == out@[pos - 1]@);
            if key_gt(&out[pos - 1], &x) {
                pos -= 1;
            } else {
                break;
            }
        }
        out.insert(pos, x);
        proof {
            let ghost ti = inp.take(k as int);
            let ghost tn = inp.take(k + 1);
            let ghost p2 = p.insert(pos as int, k as int);
            let ghost vn = mviews(out@);
            assert(vn =~= vo.insert(pos as int, xv));
            assert forall|i: int| 0 <= i < p2.len() implies 0 <= #[trigger] p2[i] < tn.len() && vn[i] == tn[p2[i]] by {
                if i < pos {
                    assert(p2[i] == p[i] && vn[i] == vo[i]);
                } else if i > pos {
                    assert(p2[i] == p[i - 1] && vn[i] == vo[i - 1]);
                }
            }
            assert forall|i: int, j: int| 0 <= i < j < p2.len() implies #[trigger] p2[i] != #[trigger] p2[j] by {
                if i < pos && j < pos {
                } else if i < pos && j == pos {
                } else if i < pos {
                    assert(p2[j] == p[j - 1]);
                } else if i == pos {
                    assert(p2[j] == p[j - 1]);
                } else {
                    assert(p2[i] == p[i - 1] && p2[j] == p[j - 1]);
                }
            }
            assert forall|i: int, j: int| 0 <= i < j < vn.len() implies !key_lt(#[trigger] vn[j], #[trigger] vn[i]) by {
                if j < pos {
                } else if j == pos {
                    if i < pos - 1 {
                        assert(!key_lt(vo[pos - 1], vo[i]));
                    }
                } else if i < pos {
                    assert(vn[j] == vo[j - 1]);
                    assert(!key_lt(vo[j - 1], vo[i]));
                    if pos > 0 && i < pos - 1 {
                        assert(!key_lt(vo[pos - 1], vo[i]));
                    }
                } else if i == pos {
                    assert(vn[j] == vo[j - 1]);
                    assert(key_lt(xv, vo[j - 1]));
                } else {
                    assert(vn[j] == vo[j - 1] && vn[i] == vo[i - 1]);
                }
            }
            assert forall|i: int, j: int| 0 <= i < j < vn.len() && key_eq(#[trigger] vn[i], #[trigger] vn[j]) implies p2[i] < p2[j] by {
                if j < pos {
                } else if j == pos {
                } else if i < pos {
                    assert(vn[j] == vo[j - 1] && p2[j] == p[j - 1]);
                } else if i == pos {
                    assert(vn[j] == vo[j - 1]);
                    assert(key_lt(xv, vo[j - 1]));
                } else {
                    assert(vn[j] == vo[j - 1] && vn[i] == vo[i - 1]);
                    assert(p2[j] == p[j - 1] && p2[i] == p[i - 1]);
                }
            }
            assert(stable_perm(p2, vn, tn));
            p = p2;
        }
    }
    assert(inp.take(n as int) =~= inp);
    out
}

/// The matched entries of each stylesheet in turn.
pub open spec fn all_matched(sheets: Seq<&Stylesheet>, e: ElementV, anc: Seq<ElementV>) -> Seq<MatchedV>
    decreases sheets.len(),
{
    if sheets.len() == 0 {
        seq![]
    } else {
        all_matched(sheets.drop_last(), e, anc) + matched_views(sheets.last().rules@, e, anc)
    }
}

/// The declarations of the entries, one entry after another.
pub open spec fn flat_decls(ms: Seq<MatchedV>) -> Seq<(Seq<char>, Seq<char>)>
    decreases ms.len(),
{
    if ms.len() == 0 {
        seq![]
    } else {
        flat_decls(ms.drop_last()) + ms.last().decls
    }
}

pub open spec fn inline_decls(inline_style: Option<&str>) -> Seq<(Seq<char>, Seq<char>)> {
    match inline_style {
        Some(s) => parse_decls_spec(s@),
        None => seq![],
    }
}

/// The declarations that apply to `node`, in the order they are to be applied: the
/// matching rules of all `sheets` by increasing cascade priority, then the element's
/// inline `style` attribute.
pub fn cascaded_declarations(sheets: &[&Stylesheet], node: &ElementInfo, ancestors: &[ElementInfo], inline_style: Option<&str>) -> (r: Vec<(String, String)>)
    requires
        forall|k: int| 0 <= k < sheets@.len() ==> (#[trigger] sheets@[k]).wf(),
    ensures
        exists|sorted: Seq<MatchedV>|
            #[trigger] stable_sorted(sorted, all_matched(sheets@, node@, elements_view(ancestors@)))
            && pairs_view(r@) == flat_decls(sorted) + inline_decls(inline_style),
{
    let ghost anc = elements_view(ancestors@);
    let mut matched: Vec<Matched> = Vec::new();
    for k in 0..sheets.len()
        invariant
            forall|j: int| 0 <= j < sheets@.len() ==> (#[trigger] sheets@[j]).wf(),
            anc == elements_view(ancestors@),
            mviews(matched@) == all_matched(sheets@.take(k as int), node@, anc),
    {
        assert(sheets@.take(k + 1).drop_last() =~= sheets@.take(k as int));
        assert(sheets@.take(k + 1).last() == sheets@[k as int]);
        sheets[k].matched(node, ancestors, &mut matched);
    }
    assert(sheets@.take(sheets.len() as int) =~= sheets@);
    let sorted = cascade_sort(&matched);
    let ghost sv = mviews(sorted@);
    let mut out: Vec<(String, String)> = Vec::new();
    for k in 0..sorted.len()
        invariant
            sv == mviews(sorted@),
            pairs_view(out@) == flat_decls(sv.take(k as int)),
    {
        let m = sorted[k];
        assert(sv.take(k + 1).drop_last() =~= sv.take(k as int));
        assert(sv.take(k + 1).last() == m@);
        let ghost before = pairs_view(out@);
        for j in 0..m.decls.len()
            invariant
                pairs_view(out@) == before + pairs_view(m.decls@.take(j as int)),
        {
            let name = m.decls[j].0.clone();
            let value = m.decls[j].1.clone();
            let ghost o1 = out@;
            out.push((name, value));
            assert(pairs_view(out@) =~= pairs_view(o1).push((m.decls@[j as int].0@, m.decls@[j as int].1@)));
            assert(pairs_view(m.decls@.take(j + 1)) =~= pairs_view(m.decls@.take(j as int)).push((m.decls@[j as int].0@, m.decls@[j as int].1@)));
            assert(pairs_view(out@) =~= before + pairs_view(m.decls@.take(j + 1)));
        }
        assert(m.decls@.take(m.decls.len() as int) =~= m.decls@);
    }
    assert(sv.take(sorted.len() as int) =~= sv);
    match inline_style {
        Some(st) => {
            let c = chars_of(st);
            let extra = parse_decls(c.as_slice());
            let ghost before = pairs_view(out@);
            for j in 0..extra.len()
                invariant
                    pairs_view(out@) == before + pairs_view(extra@.take(j as int)),
            {
                let name = extra[j].0.clone();
                let value = extra[j].1.clone();
                let ghost o1 = out@;
                out.push((name, value));
                assert(pairs_view(out@) =~= pairs_view(o1).push((extra@[j as int].0@, extra@[j as int].1@)));
                assert(pairs_view(extra@.take(j + 1)) =~= pairs_view(extra@.take(j as int)).push((extra@[j as int].0@, extra@[j as int].1@)));
                assert(pairs_view(out@) =~= before + pairs_view(extra@.take(j + 1)));
            }
            assert(extra@.take(extra.len() as int) =~= extra@);
        },
        None => {
            assert(pairs_view(out@) =~= pairs_view(out@) + Seq::<(Seq<char>, Seq<char>)>::empty());
        },
    }
    out
}

} // verus!
