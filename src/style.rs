use crate::css::{
    lower, spec_lt, spec_specificity, RuleModel, Rule, Selector, SelectorModel, SimpleSelector,
    Specificity, Stylesheet, Value, ValueModel, rules_view, decls_view,
};
use crate::dom::{classes_of, id_name, DomTree, ElementData, Node, NodeKind, NodeType};
use vstd::prelude::*;

verus! {

/// The map that a list of name/value pairs stands for: a later pair wins.
pub open spec fn props_map(s: Seq<(String, Value)>) -> Map<Seq<char>, ValueModel>
    decreases s.len(),
{
    if s.len() == 0 {
        Map::empty()
    } else {
        props_map(s.drop_last()).insert(s.last().0@, s.last().1@)
    }
}

proof fn lemma_props_map_absent(s: Seq<(String, Value)>, k: Seq<char>)
    requires
        forall|i: int| 0 <= i < s.len() ==> s[i].0@ != k,
    ensures
        !props_map(s).contains_key(k),
    decreases s.len(),
{
    if s.len() > 0 {
        lemma_props_map_absent(s.drop_last(), k);
    }
}

proof fn lemma_props_map_last(s: Seq<(String, Value)>, i: int)
    requires
        0 <= i < s.len(),
        forall|j: int| i < j < s.len() ==> s[j].0@ != s[i].0@,
    ensures
        props_map(s).contains_key(s[i].0@),
        props_map(s)[s[i].0@] == s[i].1@,
    decreases s.len(),
{
    if i < s.len() - 1 {
        lemma_props_map_last(s.drop_last(), i);
    }
}

/// Property names mapped to their values.
pub struct PropertyMap {
    entries: Vec<(String, Value)>,
}

impl PropertyMap {
    pub closed spec fn view(&self) -> Map<Seq<char>, ValueModel> {
        props_map(self.entries@)
    }

    pub fn new() -> (r: PropertyMap)
        ensures
            r.view() == Map::<Seq<char>, ValueModel>::empty(),
    {
        PropertyMap { entries: Vec::new() }
    }

    /// Sets `name` to `value`, replacing an earlier value of the same name.
    pub fn insert(&mut self, name: String, value: Value)
        ensures
            final(self).view() == old(self).view().insert(name@, value@),
    {
        self.entries.push((name, value));
        assert(final(self).entries@.drop_last() =~= old(self).entries@);
    }

    /// The value of `name`, if it is set.
    pub fn get(&self, name: &str) -> (r: Option<&Value>)
        ensures
            r matches Some(v) ==> self.view().contains_key(name@) && self.view()[name@] == v@,
            r is None ==> !self.view().contains_key(name@),
    {
        let key = name.to_owned();
        let mut i: usize = self.entries.len();
        // search from the end: the last pair of a name is the one that counts
        while i > 0
            invariant
                i <= self.entries@.len(),
                key@ == name@,
                forall|j: int| i <= j < self.entries@.len() ==> self.entries@[j].0@ != name@,
            decreases i,
        {
            if self.entries[i - 1].0 == key {
                proof {
                    lemma_props_map_last(self.entries@, i - 1);
                }
                return Some(&self.entries[i - 1].1);
            }
            i = i - 1;
        }
        proof {
            lemma_props_map_absent(self.entries@, name@);
        }
        None
    }
}

// ---- matching

/// Whether a selector matches an element with tag name `tag` and attributes `attrs`:
/// each part that the selector sets agrees with the element.
pub open spec fn matches_spec(tag: Seq<char>, attrs: Map<Seq<char>, Seq<char>>, sel: SelectorModel) -> bool {
    &&& (sel.tag matches Some(t) ==> t == tag)
    &&& (sel.id matches Some(id) ==> attrs.contains_key(id_name()) && attrs[id_name()] == id)
    &&& (forall|i: int| 0 <= i < sel.classes.len() ==> classes_of(attrs).contains(#[trigger] sel.classes[i]))
}

/// The highest specificity among the selectors of `sels` that match the element,
/// if any does.
pub open spec fn best_match(tag: Seq<char>, attrs: Map<Seq<char>, Seq<char>>, sels: Seq<SelectorModel>) -> Option<
    (nat, nat, nat),
>
    decreases sels.len(),
{
    if sels.len() == 0 {
        None
    } else {
        let rest = best_match(tag, attrs, sels.drop_last());
        let last = spec_specificity(sels.last());
        if matches_spec(tag, attrs, sels.last()) {
            match rest {
                Some(b) => if spec_lt(b, last) {
                    Some(last)
                } else {
                    Some(b)
                },
                None => Some(last),
            }
        } else {
            rest
        }
    }
}

/// `best_match` is the maximum: some matching selector has that specificity, and
/// no matching selector ranks above it; it is `None` exactly when none matches.
pub proof fn lemma_best_match_is_max(tag: Seq<char>, attrs: Map<Seq<char>, Seq<char>>, sels: Seq<SelectorModel>)
    ensures
        best_match(tag, attrs, sels) is None <==> forall|i: int|
            0 <= i < sels.len() ==> !matches_spec(tag, attrs, #[trigger] sels[i]),
        best_match(tag, attrs, sels) matches Some(b) ==> (exists|i: int|
            0 <= i < sels.len() && matches_spec(tag, attrs, sels[i]) && #[trigger] spec_specificity(sels[i]) == b)
            && forall|i: int|
            0 <= i < sels.len() && matches_spec(tag, attrs, #[trigger] sels[i]) ==> !spec_lt(b, spec_specificity(sels[i])),
    decreases sels.len(),
{
    if sels.len() > 0 {
        let d = sels.drop_last();
        lemma_best_match_is_max(tag, attrs, d);
        assert(forall|i: int| 0 <= i < d.len() ==> d[i] == sels[i]);
        let n = sels.len() - 1;
        if let Some(b) = best_match(tag, attrs, sels) {
            if matches_spec(tag, attrs, sels[n]) && spec_specificity(sels[n]) == b {
                assert(spec_specificity(sels[n]) == b);
            } else {
                let bd = best_match(tag, attrs, d)->0;
                let j = choose|i: int|
                    0 <= i < d.len() && matches_spec(tag, attrs, d[i]) && #[trigger] spec_specificity(d[i]) == bd;
                assert(spec_specificity(sels[j]) == bd);
            }
        } else {
            assert forall|i: int| 0 <= i < sels.len() implies !matches_spec(tag, attrs, #[trigger] sels[i]) by {
                if i < n {
                    assert(sels[i] == d[i]);
                }
            }
        }
    }
}

/// The rules that match the element, in sheet order, each with the highest
/// specificity among its matching selectors.
pub open spec fn matching_spec(tag: Seq<char>, attrs: Map<Seq<char>, Seq<char>>, rules: Seq<RuleModel>) -> Seq<
    ((nat, nat, nat), RuleModel),
>
    decreases rules.len(),
{
    if rules.len() == 0 {
        Seq::empty()
    } else {
        let rest = matching_spec(tag, attrs, rules.drop_last());
        match best_match(tag, attrs, rules.last().selectors) {
            Some(rank) => rest.push((rank, rules.last())),
            None => rest,
        }
    }
}

/// `x` put into `s` (sorted from lowest specificity up) after every entry that does
/// not rank above it.
pub open spec fn insert_asc(s: Seq<((nat, nat, nat), RuleModel)>, x: ((nat, nat, nat), RuleModel)) -> Seq<
    ((nat, nat, nat), RuleModel),
>
    decreases s.len(),
{
    if s.len() == 0 {
        seq![x]
    } else if !spec_lt(x.0, s.last().0) {
        s.push(x)
    } else {
        insert_asc(s.drop_last(), x).push(s.last())
    }
}

/// The stable sort of `s` from lowest specificity up.
pub open spec fn sort_asc(s: Seq<((nat, nat, nat), RuleModel)>) -> Seq<((nat, nat, nat), RuleModel)>
    decreases s.len(),
{
    if s.len() == 0 {
        s
    } else {
        insert_asc(sort_asc(s.drop_last()), s.last())
    }
}

/// Whether `s` runs from lowest specificity up.
pub open spec fn sorted_asc(s: Seq<((nat, nat, nat), RuleModel)>) -> bool {
    forall|i: int, j: int| 0 <= i < j < s.len() ==> !spec_lt(s[j].0, s[i].0)
}

/// Selects the matched rules of specificity `k`.
pub open spec fn ranked(k: (nat, nat, nat)) -> spec_fn(((nat, nat, nat), RuleModel)) -> bool {
    |x: ((nat, nat, nat), RuleModel)| x.0 == k
}

proof fn lemma_insert_asc_bound(s: Seq<((nat, nat, nat), RuleModel)>, x: ((nat, nat, nat), RuleModel), b: (nat, nat, nat))
    requires
        forall|i: int| 0 <= i < s.len() ==> !spec_lt(b, #[trigger] s[i].0),
        !spec_lt(b, x.0),
    ensures
        forall|i: int|
            0 <= i < insert_asc(s, x).len() ==> !spec_lt(b, #[trigger] insert_asc(s, x)[i].0),
    decreases s.len(),
{
    if s.len() > 0 && spec_lt(x.0, s.last().0) {
        lemma_insert_asc_bound(s.drop_last(), x, b);
        let r = insert_asc(s.drop_last(), x);
        assert(forall|i: int| 0 <= i < r.len() ==> r.push(s.last())[i] == r[i]);
    }
}

proof fn lemma_insert_asc(s: Seq<((nat, nat, nat), RuleModel)>, x: ((nat, nat, nat), RuleModel))
    requires
        sorted_asc(s),
    ensures
        sorted_asc(insert_asc(s, x)),
        insert_asc(s, x).to_multiset() == s.to_multiset().insert(x),
        forall|k: (nat, nat, nat)|
            #[trigger] insert_asc(s, x).filter(ranked(k)) == if x.0 == k {
                s.filter(ranked(k)).push(x)
            } else {
                s.filter(ranked(k))
            },
    decreases s.len(),
{
    broadcast use vstd::seq_lib::group_to_multiset_ensures;
    let r = insert_asc(s, x);
    if s.len() == 0 {
        assert(r =~= s.push(x));
        assert forall|k: (nat, nat, nat)| #[trigger] r.filter(ranked(k)) == if x.0 == k {
            s.filter(ranked(k)).push(x)
        } else {
            s.filter(ranked(k))
        } by {
            s.lemma_filter_push(x, ranked(k));
        }
    } else if !spec_lt(x.0, s.last().0) {
        assert forall|i: int, j: int| 0 <= i < j < r.len() implies !spec_lt(r[j].0, r[i].0) by {
            if j == s.len() {
                assert(!spec_lt(s.last().0, s[i].0));
            }
        }
        assert forall|k: (nat, nat, nat)| #[trigger] r.filter(ranked(k)) == if x.0 == k {
            s.filter(ranked(k)).push(x)
        } else {
            s.filter(ranked(k))
        } by {
            s.lemma_filter_push(x, ranked(k));
        }
    } else {
        let d = s.drop_last();
        let l = s.last();
        assert(sorted_asc(d)) by {
            assert forall|i: int, j: int| 0 <= i < j < d.len() implies !spec_lt(d[j].0, d[i].0) by {
                assert(d[i] == s[i] && d[j] == s[j]);
            }
        }
        lemma_insert_asc(d, x);
        let m = insert_asc(d, x);
        assert forall|i: int| 0 <= i < d.len() implies !spec_lt(l.0, #[trigger] d[i].0) by {
            assert(d[i] == s[i]);
        }
        lemma_insert_asc_bound(d, x, l.0);
        assert forall|i: int, j: int| 0 <= i < j < r.len() implies !spec_lt(r[j].0, r[i].0) by {
            assert(r[i] == m[i]);
            if j < m.len() {
                assert(r[j] == m[j]);
            }
        }
        assert(s =~= d.push(l));
        assert(r.to_multiset() =~= s.to_multiset().insert(x));
        assert forall|k: (nat, nat, nat)| #[trigger] r.filter(ranked(k)) == if x.0 == k {
            s.filter(ranked(k)).push(x)
        } else {
            s.filter(ranked(k))
        } by {
            m.lemma_filter_push(l, ranked(k));
            d.lemma_filter_push(l, ranked(k));
            if x.0 == k {
                // `l` ranks above `x`, so it is not of rank `k`
                assert(!ranked(k)(l));
            }
        }
    }
}

/// The cascade order: `sort_asc` runs from lowest specificity up, holds the same
/// matched rules, and keeps the sheet order among rules of equal specificity.
pub proof fn lemma_sort_asc(s: Seq<((nat, nat, nat), RuleModel)>)
    ensures
        sorted_asc(sort_asc(s)),
        sort_asc(s).to_multiset() == s.to_multiset(),
        forall|k: (nat, nat, nat)| #[trigger] sort_asc(s).filter(ranked(k)) == s.filter(ranked(k)),
    decreases s.len(),
{
    broadcast use vstd::seq_lib::group_to_multiset_ensures;
    if s.len() > 0 {
        let d = s.drop_last();
        lemma_sort_asc(d);
        lemma_insert_asc(sort_asc(d), s.last());
        assert(s =~= d.push(s.last()));
        assert forall|k: (nat, nat, nat)| #[trigger] sort_asc(s).filter(ranked(k)) == s.filter(ranked(k)) by {
            d.lemma_filter_push(s.last(), ranked(k));
        }
    } else {
        assert(sort_asc(s) == s);
    }
}

/// `m` with the declarations `ds` set in order.
pub open spec fn apply_declarations(m: Map<Seq<char>, ValueModel>, ds: Seq<(Seq<char>, ValueModel)>) -> Map<
    Seq<char>,
    ValueModel,
>
    decreases ds.len(),
{
    if ds.len() == 0 {
        m
    } else {
        apply_declarations(m, ds.drop_last()).insert(ds.last().0, ds.last().1)
    }
}

/// `m` with the declarations of the rules `rs` set in order.
pub open spec fn apply_rules(m: Map<Seq<char>, ValueModel>, rs: Seq<((nat, nat, nat), RuleModel)>) -> Map<
    Seq<char>,
    ValueModel,
>
    decreases rs.len(),
{
    if rs.len() == 0 {
        m
    } else {
        apply_declarations(apply_rules(m, rs.drop_last()), rs.last().1.declarations)
    }
}

/// The cascade: the declarations of the matching rules, applied from lowest
/// specificity up, rules of equal specificity in sheet order.
pub open spec fn cascade(tag: Seq<char>, attrs: Map<Seq<char>, Seq<char>>, rules: Seq<RuleModel>) -> Map<
    Seq<char>,
    ValueModel,
> {
    apply_rules(Map::empty(), sort_asc(matching_spec(tag, attrs, rules)))
}

pub open spec fn elem_tag(e: ElementData) -> Seq<char> {
    e.tag_name@
}

pub open spec fn elem_attrs(e: ElementData) -> Map<Seq<char>, Seq<char>> {
    e.attrs.view()
}

fn contains_string(v: &Vec<String>, s: &String) -> (r: bool)
    ensures
        r == exists|k: int| 0 <= k < v@.len() && #[trigger] v@[k]@ == s@,
{
    let mut i: usize = 0;
    while i < v.len()
        invariant
            i <= v@.len(),
            forall|k: int| 0 <= k < i ==> #[trigger] v@[k]@ != s@,
        decreases v.len() - i,
    {
        if v[i] == *s {
            return true;
        }
        i = i + 1;
    }
    false
}

pub fn matches_simple_selector(elem: &ElementData, selector: &SimpleSelector) -> (r: bool)
    ensures
        r == matches_spec(elem_tag(*elem), elem_attrs(*elem), selector@),
{
    match &selector.tag_name {
        Some(name) => {
            if elem.tag_name != *name {
                return false;
            }
        },
        None => {},
    }
    match &selector.id {
        Some(id) => {
            match elem.id() {
                Some(v) => {
                    if *v != *id {
                        return false;
                    }
                },
                None => {
                    return false;
                },
            }
        },
        None => {},
    }
    let classes = elem.classes();
    let mut i: usize = 0;
    while i < selector.class.len()
        invariant
            i <= selector.class@.len(),
            forall|c: Seq<char>|
                elem.class_names().contains(c) <==> exists|k: int|
                    0 <= k < classes@.len() && #[trigger] classes@[k]@ == c,
            forall|j: int| 0 <= j < i ==> elem.class_names().contains(#[trigger] selector@.classes[j]),
        decreases selector.class.len() - i,
    {
        if !contains_string(&classes, &selector.class[i]) {
            assert(!elem.class_names().contains(selector@.classes[i as int]));
            return false;
        }
        i = i + 1;
    }
    true
}

pub fn matches(elem: &ElementData, selector: &Selector) -> (r: bool)
    ensures
        r == matches_spec(elem_tag(*elem), elem_attrs(*elem), selector@),
{
    match selector {
        Selector::Simple(s) => matches_simple_selector(elem, s),
    }
}

pub type MatchedRule<'a> = (Specificity, &'a Rule);

pub open spec fn spec3(s: Specificity) -> (nat, nat, nat) {
    (s.0 as nat, s.1 as nat, s.2 as nat)
}

pub open spec fn matched_view(v: Seq<MatchedRule>) -> Seq<((nat, nat, nat), RuleModel)> {
    v.map_values(|m: MatchedRule| (spec3(m.0), m.1@))
}

/// The rule with the highest specificity among its selectors that match `elem`, if
/// one does.
fn match_rule<'a>(elem: &ElementData, rule: &'a Rule) -> (r: Option<MatchedRule<'a>>)
    ensures
        match best_match(elem_tag(*elem), elem_attrs(*elem), rule@.selectors) {
            Some(rank) => r matches Some(m) && spec3(m.0) == rank && m.1 == rule,
            None => r is None,
        },
{
    let ghost all = rule@.selectors;
    let mut best: Option<Specificity> = None;
    let mut i: usize = 0;
    while i < rule.selectors.len()
        invariant
            i <= rule.selectors@.len(),
            all == rule@.selectors,
            all.len() == rule.selectors@.len(),
            match best_match(elem_tag(*elem), elem_attrs(*elem), all.subrange(0, i as int)) {
                Some(rank) => best matches Some(b) && spec3(b) == rank,
                None => best is None,
            },
        decreases rule.selectors.len() - i,
    {
        let selector = &rule.selectors[i];
        assert(all[i as int] == selector@);
        assert(all.subrange(0, i + 1).drop_last() =~= all.subrange(0, i as int));
        assert(all.subrange(0, i + 1).last() == selector@);
        if matches(elem, selector) {
            let rank = selector.specificity();
            best = match best {
                Some(b) => if lower(b, rank) {
                    Some(rank)
                } else {
                    Some(b)
                },
                None => Some(rank),
            };
        }
        i = i + 1;
    }
    assert(all.subrange(0, all.len() as int) =~= all);
    match best {
        Some(b) => Some((b, rule)),
        None => None,
    }
}

fn matching_rules<'a>(elem: &ElementData, stylesheet: &'a Stylesheet) -> (r: Vec<MatchedRule<'a>>)
    ensures
        matched_view(r@) == matching_spec(elem_tag(*elem), elem_attrs(*elem), stylesheet@),
{
    let ghost all = stylesheet@;
    let mut r: Vec<MatchedRule<'a>> = Vec::new();
    let mut i: usize = 0;
    assert(matched_view(r@) =~= Seq::<((nat, nat, nat), RuleModel)>::empty());
    while i < stylesheet.rules.len()
        invariant
            i <= stylesheet.rules@.len(),
            all == stylesheet@,
            all.len() == stylesheet.rules@.len(),
            matched_view(r@) == matching_spec(elem_tag(*elem), elem_attrs(*elem), all.subrange(0, i as int)),
        decreases stylesheet.rules.len() - i,
    {
        let rule = &stylesheet.rules[i];
        assert(all.subrange(0, i + 1).drop_last() =~= all.subrange(0, i as int));
        assert(all.subrange(0, i + 1).last() == rule@);
        let ghost before = matched_view(r@);
        match match_rule(elem, rule) {
            Some(m) => {
                r.push(m);
                assert(matched_view(r@) =~= before.push((spec3(m.0), m.1@)));
            },
            None => {},
        }
        i = i + 1;
    }
    assert(all.subrange(0, all.len() as int) =~= all);
    r
}

fn insert_matched<'a>(v: &mut Vec<MatchedRule<'a>>, x: MatchedRule<'a>)
    ensures
        matched_view(final(v)@) == insert_asc(matched_view(old(v)@), (spec3(x.0), x.1@)),
    decreases old(v)@.len(),
{
    let ghost before = matched_view(v@);
    let ghost xv = (spec3(x.0), x.1@);
    if v.len() == 0 {
        v.push(x);
        assert(matched_view(v@) =~= seq![xv]);
        return ;
    }
    let last = v.pop().unwrap();
    assert(matched_view(v@) =~= before.drop_last());
    if !lower(x.0, last.0) {
        v.push(last);
        v.push(x);
        assert(matched_view(v@) =~= before.push(xv));
    } else {
        insert_matched(v, x);
        let ghost mid = matched_view(v@);
        v.push(last);
        assert(matched_view(v@) =~= mid.push((spec3(last.0), last.1@)));
    }
}

/// Sorts from lowest specificity up, keeping the sheet order of equals.
fn sort_matched<'a>(v: &Vec<MatchedRule<'a>>) -> (r: Vec<MatchedRule<'a>>)
    ensures
        matched_view(r@) == sort_asc(matched_view(v@)),
{
    let ghost all = matched_view(v@);
    let mut r: Vec<MatchedRule<'a>> = Vec::new();
    let mut i: usize = 0;
    while i < v.len()
        invariant
            i <= v@.len(),
            all == matched_view(v@),
            matched_view(r@) == sort_asc(all.subrange(0, i as int)),
        decreases v.len() - i,
    {
        assert(all.subrange(0, i + 1).drop_last() =~= all.subrange(0, i as int));
        insert_matched(&mut r, v[i]);
        i = i + 1;
    }
    assert(all.subrange(0, all.len() as int) =~= all);
    r
}

/// The properties that the cascade gives `elem`.
pub fn specified_values(elem: &ElementData, stylesheet: &Stylesheet) -> (r: PropertyMap)
    ensures
        r.view() == cascade(elem_tag(*elem), elem_attrs(*elem), stylesheet@),
{
    let mut values = PropertyMap::new();
    let rules = sort_matched(&matching_rules(elem, stylesheet));
    let ghost all = matched_view(rules@);
    let mut i: usize = 0;
    while i < rules.len()
        invariant
            i <= rules@.len(),
            all == matched_view(rules@),
            values.view() == apply_rules(Map::empty(), all.subrange(0, i as int)),
        decreases rules.len() - i,
    {
        let rule = rules[i].1;
        let ghost ds = rule@.declarations;
        let ghost base = values.view();
        let mut j: usize = 0;
        while j < rule.declarations.len()
            invariant
                j <= rule.declarations@.len(),
                ds == rule@.declarations,
                ds == decls_view(rule.declarations@),
                values.view() == apply_declarations(base, ds.subrange(0, j as int)),
            decreases rule.declarations.len() - j,
        {
            let d = &rule.declarations[j];
            assert(ds.subrange(0, j + 1).drop_last() =~= ds.subrange(0, j as int));
            values.insert(d.name.clone(), d.value.copy());
            j = j + 1;
        }
        assert(ds.subrange(0, ds.len() as int) =~= ds);
        assert(all.subrange(0, i + 1).drop_last() =~= all.subrange(0, i as int));
        i = i + 1;
    }
    assert(all.subrange(0, all.len() as int) =~= all);
    values
}

/// Of two rules that both match an element, the one whose best matching selector
/// ranks higher decides a property that it sets, whichever of the two comes first in the
/// sheet.
pub proof fn lemma_higher_specificity_wins(
    tag: Seq<char>,
    attrs: Map<Seq<char>, Seq<char>>,
    low: RuleModel,
    high: RuleModel,
    name: Seq<char>,
    value: ValueModel,
)
    requires
        best_match(tag, attrs, low.selectors) is Some,
        best_match(tag, attrs, high.selectors) is Some,
        spec_lt(best_match(tag, attrs, low.selectors)->0, best_match(tag, attrs, high.selectors)->0),
        high.declarations == seq![(name, value)],
    ensures
        cascade(tag, attrs, seq![low, high]).contains_key(name),
        cascade(tag, attrs, seq![low, high])[name] == value,
        cascade(tag, attrs, seq![high, low]).contains_key(name),
        cascade(tag, attrs, seq![high, low])[name] == value,
{
    let x = (best_match(tag, attrs, low.selectors)->0, low);
    let y = (best_match(tag, attrs, high.selectors)->0, high);
    let e = Seq::<RuleModel>::empty();
    let none = Seq::<((nat, nat, nat), RuleModel)>::empty();
    assert(matching_spec(tag, attrs, e) == none);
    assert(seq![low, high].drop_last() =~= seq![low]);
    assert(seq![low].drop_last() =~= e);
    assert(seq![high, low].drop_last() =~= seq![high]);
    assert(seq![high].drop_last() =~= e);
    assert(matching_spec(tag, attrs, seq![low]) =~= seq![x]);
    assert(matching_spec(tag, attrs, seq![high]) =~= seq![y]);
    assert(matching_spec(tag, attrs, seq![low, high]) =~= seq![x, y]);
    assert(matching_spec(tag, attrs, seq![high, low]) =~= seq![y, x]);
    assert(seq![x, y].drop_last() =~= seq![x]);
    assert(seq![y, x].drop_last() =~= seq![y]);
    assert(seq![x].drop_last() =~= none);
    assert(seq![y].drop_last() =~= none);
    assert(sort_asc(none) == none);
    assert(sort_asc(seq![x]) =~= seq![x]);
    assert(sort_asc(seq![y]) =~= seq![y]);
    assert(insert_asc(none, x) =~= seq![x]);
    assert(sort_asc(seq![x, y]) =~= seq![x, y]);
    assert(sort_asc(seq![y, x]) =~= seq![x, y]);
    let before = apply_rules(Map::empty(), seq![x]);
    assert(high.declarations.drop_last() =~= Seq::<(Seq<char>, ValueModel)>::empty());
    assert(apply_declarations(before, Seq::<(Seq<char>, ValueModel)>::empty()) == before);
    assert(high.declarations.last() == (name, value));
    assert(apply_declarations(before, high.declarations) == before.insert(name, value));
}

// ---- the styled tree

#[derive(PartialEq, Eq, Structural, Clone, Copy, Debug)]
pub enum Display {
    Inline,
    Block,
    Hidden,
}

/// A styled tree, as a value: each document node with its properties.
pub struct StyledTree {
    pub node: DomTree,
    pub values: Map<Seq<char>, ValueModel>,
    pub children: Seq<StyledTree>,
}

pub struct StyledNode<'a> {
    pub node: &'a Node,
    pub specified_values: PropertyMap,
    pub children: Vec<StyledNode<'a>>,
}

impl<'a> StyledNode<'a> {
    pub open spec fn tree(&self) -> StyledTree
        decreases self,
    {
        StyledTree {
            node: self.node.tree(),
            values: self.specified_values.view(),
            children: Seq::new(
                self.children@.len(),
                |i: int|
                    if 0 <= i < self.children@.len() {
                        self.children@[i].tree()
                    } else {
                        StyledTree { node: self.node.tree(), values: Map::empty(), children: Seq::empty() }
                    },
            ),
        }
    }
}

impl<'a> StyledNode<'a> {
    /// The value of the property `name`, if it is set.
    pub fn value(&self, name: &str) -> (r: Option<Value>)
        ensures
            r matches Some(v) ==> self.specified_values.view().contains_key(name@)
                && self.specified_values.view()[name@] == v@,
            r is None ==> !self.specified_values.view().contains_key(name@),
    {
        match self.specified_values.get(name) {
            Some(v) => Some(v.copy()),
            None => None,
        }
    }

    /// The value of `name`, else of `fallback_name`, else `default`.
    pub fn lookup(&self, name: &str, fallback_name: &str, default: &Value) -> (r: Value)
        ensures
            r@ == if self.specified_values.view().contains_key(name@) {
                self.specified_values.view()[name@]
            } else if self.specified_values.view().contains_key(fallback_name@) {
                self.specified_values.view()[fallback_name@]
            } else {
                default@
            },
    {
        match self.value(name) {
            Some(v) => v,
            None => match self.value(fallback_name) {
                Some(v) => v,
                None => default.copy(),
            },
        }
    }

    /// The node's display: `block` and `none` as set, anything else inline.
    pub fn display(&self) -> (r: Display)
        ensures
            r == display_of(self.specified_values.view()),
    {
        proof {
            reveal_strlit("display");
            reveal_strlit("block");
            reveal_strlit("none");
            assert("display"@ =~= seq!['d', 'i', 's', 'p', 'l', 'a', 'y']);
            assert("block"@ =~= seq!['b', 'l', 'o', 'c', 'k']);
            assert("none"@ =~= seq!['n', 'o', 'n', 'e']);
        }
        match self.value("display") {
            Some(Value::Keyword(s)) => {
                if s == "block".to_owned() {
                    Display::Block
                } else if s == "none".to_owned() {
                    Display::Hidden
                } else {
                    Display::Inline
                }
            },
            _ => Display::Inline,
        }
    }
}

/// The styled tree of the document tree `n` under the rules `rules`: elements get
/// what the cascade gives them, text nothing.
pub open spec fn style_spec(n: DomTree, rules: Seq<RuleModel>) -> StyledTree
    decreases n,
{
    StyledTree {
        node: n,
        values: match n.kind {
            NodeKind::Element(tag, attrs) => cascade(tag, attrs, rules),
            NodeKind::Text(_) => Map::empty(),
        },
        children: Seq::new(
            n.children.len(),
            |i: int|
                if 0 <= i < n.children.len() {
                    style_spec(n.children[i], rules)
                } else {
                    StyledTree { node: n, values: Map::empty(), children: Seq::empty() }
                },
        ),
    }
}

/// The display that the properties `values` give.
pub open spec fn display_of(values: Map<Seq<char>, ValueModel>) -> Display {
    let key = seq!['d', 'i', 's', 'p', 'l', 'a', 'y'];
    if values.contains_key(key) && values[key] == ValueModel::Keyword(seq!['b', 'l', 'o', 'c', 'k']) {
        Display::Block
    } else if values.contains_key(key) && values[key] == ValueModel::Keyword(seq!['n', 'o', 'n', 'e']) {
        Display::Hidden
    } else {
        Display::Inline
    }
}

/// Styles `root` and its subtree with `stylesheet`.
pub fn style_tree<'a>(root: &'a Node, stylesheet: &'a Stylesheet) -> (r: StyledNode<'a>)
    ensures
        r.tree() == style_spec(root.tree(), stylesheet@),
        r.node == root,
    decreases root,
{
    let values = match &root.node_type {
        NodeType::Element(elem) => specified_values(elem, stylesheet),
        NodeType::Text(_) => PropertyMap::new(),
    };
    let mut children: Vec<StyledNode<'a>> = Vec::new();
    let mut i: usize = 0;
    while i < root.children.len()
        invariant
            i <= root.children@.len(),
            children@.len() == i,
            forall|j: int| 0 <= j < i ==> (#[trigger] children@[j]).tree() == style_spec(root.children@[j].tree(), stylesheet@),
        decreases root.children.len() - i,
    {
        assert(decreases_to!(root => root.children@[i as int]));
        let child = style_tree(&root.children[i], stylesheet);
        children.push(child);
        i = i + 1;
    }
    let r = StyledNode { node: root, specified_values: values, children };
    assert(r.tree().children =~= style_spec(root.tree(), stylesheet@).children);
    r
}

} // verus!
