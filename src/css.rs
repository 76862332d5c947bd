use crate::scan::{
    char_at, char_is, char_len, is_digit, lemma_run_bound, lemma_run_stops, run, scan_while,
    substring, CharClass, SyntaxError,
};
use vstd::prelude::*;

verus! {

pub struct Stylesheet {
    pub rules: Vec<Rule>,
}

pub struct Rule {
    pub selectors: Vec<Selector>,
    pub declarations: Vec<Declaration>,
}

#[derive(PartialEq, Debug)]
pub enum Selector {
    Simple(SimpleSelector),
}

/// `(ids, classes, tag names)`, compared in that order.
pub type Specificity = (usize, usize, usize);

#[derive(PartialEq, Debug)]
pub struct SimpleSelector {
    pub tag_name: Option<String>,
    pub id: Option<String>,
    pub class: Vec<String>,
}

#[derive(PartialEq, Debug)]
pub struct Declaration {
    pub name: String,
    pub value: Value,
}

#[derive(PartialEq, Debug)]
pub enum Value {
    Keyword(String),
    /// A number as written (digits with at most one `.`), and its unit.
    Length(String, Unit),
    ColorValue(Color),
}

#[derive(PartialEq, Eq, Structural, Clone, Copy, Debug)]
pub enum Unit {
    Px,
}

#[derive(PartialEq, Eq, Structural, Clone, Copy, Debug)]
pub struct Color {
    pub r: u8,
    pub g: u8,
    pub b: u8,
    pub a: u8,
}

/// A selector, as a value.
pub struct SelectorModel {
    pub tag: Option<Seq<char>>,
    pub id: Option<Seq<char>>,
    pub classes: Seq<Seq<char>>,
}

/// A value of a declaration, as a value.
pub enum ValueModel {
    Keyword(Seq<char>),
    Length(Seq<char>, Unit),
    Color(Color),
}

/// A rule, as a value: its selectors and its (name, value) declarations.
pub struct RuleModel {
    pub selectors: Seq<SelectorModel>,
    pub declarations: Seq<(Seq<char>, ValueModel)>,
}

pub open spec fn opt_view(o: Option<String>) -> Option<Seq<char>> {
    match o {
        Some(s) => Some(s@),
        None => None,
    }
}

pub open spec fn strs_view(v: Seq<String>) -> Seq<Seq<char>> {
    v.map_values(|s: String| s@)
}

impl View for SimpleSelector {
    type V = SelectorModel;

    open spec fn view(&self) -> SelectorModel {
        SelectorModel { tag: opt_view(self.tag_name), id: opt_view(self.id), classes: strs_view(self.class@) }
    }
}

impl View for Selector {
    type V = SelectorModel;

    open spec fn view(&self) -> SelectorModel {
        match self {
            Selector::Simple(s) => s@,
        }
    }
}

impl View for Value {
    type V = ValueModel;

    open spec fn view(&self) -> ValueModel {
        match self {
            Value::Keyword(k) => ValueModel::Keyword(k@),
            Value::Length(n, u) => ValueModel::Length(n@, *u),
            Value::ColorValue(c) => ValueModel::Color(*c),
        }
    }
}

impl View for Declaration {
    type V = (Seq<char>, ValueModel);

    open spec fn view(&self) -> (Seq<char>, ValueModel) {
        (self.name@, self.value@)
    }
}

pub open spec fn sels_view(v: Seq<Selector>) -> Seq<SelectorModel> {
    v.map_values(|s: Selector| s@)
}

pub open spec fn decls_view(v: Seq<Declaration>) -> Seq<(Seq<char>, ValueModel)> {
    v.map_values(|d: Declaration| d@)
}

impl View for Rule {
    type V = RuleModel;

    open spec fn view(&self) -> RuleModel {
        RuleModel { selectors: sels_view(self.selectors@), declarations: decls_view(self.declarations@) }
    }
}

pub open spec fn rules_view(v: Seq<Rule>) -> Seq<RuleModel> {
    v.map_values(|r: Rule| r@)
}

impl View for Stylesheet {
    type V = Seq<RuleModel>;

    open spec fn view(&self) -> Seq<RuleModel> {
        rules_view(self.rules@)
    }
}

impl Value {
    /// A copy of the value.
    pub fn copy(&self) -> (r: Value)
        ensures
            r@ == self@,
    {
        match self {
            Value::Keyword(k) => Value::Keyword(k.clone()),
            Value::Length(n, u) => Value::Length(n.clone(), *u),
            Value::ColorValue(c) => Value::ColorValue(*c),
        }
    }
}

// ---- specificity

pub open spec fn spec_specificity(s: SelectorModel) -> (nat, nat, nat) {
    (
        if s.id is Some { 1 } else { 0 },
        s.classes.len(),
        if s.tag is Some { 1 } else { 0 },
    )
}

/// Lexicographic order on specificities.
pub open spec fn spec_lt(a: (nat, nat, nat), b: (nat, nat, nat)) -> bool {
    a.0 < b.0 || (a.0 == b.0 && (a.1 < b.1 || (a.1 == b.1 && a.2 < b.2)))
}

impl Selector {
    pub fn specificity(&self) -> (r: Specificity)
        ensures
            (r.0 as nat, r.1 as nat, r.2 as nat) == spec_specificity(self@),
    {
        let Selector::Simple(simple) = self;
        let a: usize = if simple.id.is_some() { 1 } else { 0 };
        let b: usize = simple.class.len();
        let c: usize = if simple.tag_name.is_some() { 1 } else { 0 };
        (a, b, c)
    }
}

/// Whether specificity `a` ranks below `b`.
pub fn lower(a: Specificity, b: Specificity) -> (r: bool)
    ensures
        r == spec_lt((a.0 as nat, a.1 as nat, a.2 as nat), (b.0 as nat, b.1 as nat, b.2 as nat)),
{
    a.0 < b.0 || (a.0 == b.0 && (a.1 < b.1 || (a.1 == b.1 && a.2 < b.2)))
}

/// A selector that has an id ranks above every selector without one; among selectors
/// with the same number of ids, more classes rank higher whatever the tag name.
pub proof fn lemma_specificity_ranks(a: SelectorModel, b: SelectorModel)
    ensures
        a.id is Some && b.id is None ==> spec_lt(spec_specificity(b), spec_specificity(a)),
        (a.id is Some <==> b.id is Some) && a.classes.len() > b.classes.len() ==> spec_lt(
            spec_specificity(b),
            spec_specificity(a),
        ),
        (a.id is Some <==> b.id is Some) && a.classes.len() == b.classes.len() && a.tag is Some
            && b.tag is None ==> spec_lt(spec_specificity(b), spec_specificity(a)),
{
}

/// Adding an id, a class or a tag name to a selector strictly raises its specificity;
/// adding an id raises it above any number of added classes.
pub proof fn lemma_specificity_monotonic(s: SelectorModel, id: Seq<char>, tag: Seq<char>, more: Seq<Seq<char>>)
    requires
        more.len() > 0,
    ensures
        s.id is None ==> spec_lt(
            spec_specificity(SelectorModel { classes: s.classes + more, ..s }),
            spec_specificity(SelectorModel { id: Some(id), ..s }),
        ),
        spec_lt(spec_specificity(s), spec_specificity(SelectorModel { classes: s.classes + more, ..s })),
        s.id is None ==> spec_lt(spec_specificity(s), spec_specificity(SelectorModel { id: Some(id), ..s })),
        s.tag is None ==> spec_lt(spec_specificity(s), spec_specificity(SelectorModel { tag: Some(tag), ..s })),
{
}

// ---- ordering of a selector list

/// `x` put into the list `s` (sorted from highest specificity down) after every
/// selector that does not rank below it.
pub open spec fn insert_desc(s: Seq<SelectorModel>, x: SelectorModel) -> Seq<SelectorModel>
    decreases s.len(),
{
    if s.len() == 0 {
        seq![x]
    } else if !spec_lt(spec_specificity(s.last()), spec_specificity(x)) {
        s.push(x)
    } else {
        insert_desc(s.drop_last(), x).push(s.last())
    }
}

/// The stable sort of `s` from highest specificity down.
pub open spec fn sort_desc(s: Seq<SelectorModel>) -> Seq<SelectorModel>
    decreases s.len(),
{
    if s.len() == 0 {
        s
    } else {
        insert_desc(sort_desc(s.drop_last()), s.last())
    }
}

/// Whether `s` runs from highest specificity down.
pub open spec fn sorted_desc(s: Seq<SelectorModel>) -> bool {
    forall|i: int, j: int| 0 <= i < j < s.len() ==> !spec_lt(spec_specificity(s[i]), spec_specificity(s[j]))
}

/// Selects the selectors of specificity `k`.
pub open spec fn has_rank(k: (nat, nat, nat)) -> spec_fn(SelectorModel) -> bool {
    |x: SelectorModel| spec_specificity(x) == k
}

proof fn lemma_insert_desc_bound(s: Seq<SelectorModel>, x: SelectorModel, b: (nat, nat, nat))
    requires
        forall|i: int| 0 <= i < s.len() ==> !spec_lt(spec_specificity(#[trigger] s[i]), b),
        !spec_lt(spec_specificity(x), b),
    ensures
        forall|i: int|
            0 <= i < insert_desc(s, x).len() ==> !spec_lt(spec_specificity(#[trigger] insert_desc(s, x)[i]), b),
    decreases s.len(),
{
    if s.len() > 0 && spec_lt(spec_specificity(s.last()), spec_specificity(x)) {
        lemma_insert_desc_bound(s.drop_last(), x, b);
        let r = insert_desc(s.drop_last(), x);
        assert(forall|i: int| 0 <= i < r.len() ==> r.push(s.last())[i] == r[i]);
    }
}

proof fn lemma_insert_desc(s: Seq<SelectorModel>, x: SelectorModel)
    requires
        sorted_desc(s),
    ensures
        sorted_desc(insert_desc(s, x)),
        insert_desc(s, x).to_multiset() == s.to_multiset().insert(x),
        forall|k: (nat, nat, nat)|
            #[trigger] insert_desc(s, x).filter(has_rank(k)) == if spec_specificity(x) == k {
                s.filter(has_rank(k)).push(x)
            } else {
                s.filter(has_rank(k))
            },
    decreases s.len(),
{
    broadcast use vstd::seq_lib::group_to_multiset_ensures;
    let r = insert_desc(s, x);
    if s.len() == 0 {
        assert(r =~= s.push(x));
        assert forall|k: (nat, nat, nat)| #[trigger] r.filter(has_rank(k)) == if spec_specificity(x) == k {
            s.filter(has_rank(k)).push(x)
        } else {
            s.filter(has_rank(k))
        } by {
            s.lemma_filter_push(x, has_rank(k));
        }
    } else if !spec_lt(spec_specificity(s.last()), spec_specificity(x)) {
        assert forall|i: int, j: int| 0 <= i < j < r.len() implies !spec_lt(
            spec_specificity(r[i]),
            spec_specificity(r[j]),
        ) by {
            if j == s.len() {
                assert(!spec_lt(spec_specificity(s[i]), spec_specificity(s.last())));
            }
        }
        assert forall|k: (nat, nat, nat)| #[trigger] r.filter(has_rank(k)) == if spec_specificity(x) == k {
            s.filter(has_rank(k)).push(x)
        } else {
            s.filter(has_rank(k))
        } by {
            s.lemma_filter_push(x, has_rank(k));
        }
    } else {
        let d = s.drop_last();
        let l = s.last();
        assert(sorted_desc(d)) by {
            assert forall|i: int, j: int| 0 <= i < j < d.len() implies !spec_lt(
                spec_specificity(d[i]),
                spec_specificity(d[j]),
            ) by {
                assert(d[i] == s[i] && d[j] == s[j]);
            }
        }
        lemma_insert_desc(d, x);
        let m = insert_desc(d, x);
        assert forall|i: int| 0 <= i < d.len() implies !spec_lt(spec_specificity(#[trigger] d[i]), spec_specificity(l)) by {
            assert(d[i] == s[i]);
        }
        lemma_insert_desc_bound(d, x, spec_specificity(l));
        assert forall|i: int, j: int| 0 <= i < j < r.len() implies !spec_lt(
            spec_specificity(r[i]),
            spec_specificity(r[j]),
        ) by {
            assert(r[i] == m[i]);
            if j < m.len() {
                assert(r[j] == m[j]);
            }
        }
        assert(s =~= d.push(l));
        assert(r.to_multiset() =~= s.to_multiset().insert(x));
        assert forall|k: (nat, nat, nat)| #[trigger] r.filter(has_rank(k)) == if spec_specificity(x) == k {
            s.filter(has_rank(k)).push(x)
        } else {
            s.filter(has_rank(k))
        } by {
            m.lemma_filter_push(l, has_rank(k));
            d.lemma_filter_push(l, has_rank(k));
            if spec_specificity(x) == k {
                // `l` ranks below `x`, so it is not of rank `k`
                assert(!has_rank(k)(l));
            }
        }
    }
}

/// The selector list order: `sort_desc` runs from highest specificity down, holds the
/// same selectors, and keeps the written order among selectors of equal specificity.
pub proof fn lemma_sort_desc(s: Seq<SelectorModel>)
    ensures
        sorted_desc(sort_desc(s)),
        sort_desc(s).to_multiset() == s.to_multiset(),
        forall|k: (nat, nat, nat)| #[trigger] sort_desc(s).filter(has_rank(k)) == s.filter(has_rank(k)),
    decreases s.len(),
{
    broadcast use vstd::seq_lib::group_to_multiset_ensures;
    if s.len() > 0 {
        let d = s.drop_last();
        lemma_sort_desc(d);
        lemma_insert_desc(sort_desc(d), s.last());
        assert(s =~= d.push(s.last()));
        assert forall|k: (nat, nat, nat)| #[trigger] sort_desc(s).filter(has_rank(k)) == s.filter(has_rank(k)) by {
            d.lemma_filter_push(s.last(), has_rank(k));
        }
    } else {
        assert(sort_desc(s) == s);
    }
}

fn insert_selector(v: &mut Vec<Selector>, x: Selector)
    ensures
        sels_view(final(v)@) == insert_desc(sels_view(old(v)@), x@),
    decreases old(v)@.len(),
{
    let ghost before = sels_view(v@);
    if v.len() == 0 {
        v.push(x);
        assert(sels_view(v@) =~= seq![x@]);
        return ;
    }
    let last = v.pop().unwrap();
    assert(sels_view(v@) =~= before.drop_last());
    if !lower(last.specificity(), x.specificity()) {
        let ghost xv = x@;
        v.push(last);
        v.push(x);
        assert(sels_view(v@) =~= before.push(xv));
    } else {
        let ghost lv = last@;
        insert_selector(v, x);
        let ghost mid = sels_view(v@);
        v.push(last);
        assert(sels_view(v@) =~= mid.push(lv));
    }
}

/// Sorts `v` from highest specificity down, keeping the order of equals.
fn sort_selectors(v: Vec<Selector>) -> (r: Vec<Selector>)
    ensures
        sels_view(r@) == sort_desc(sels_view(v@)),
{
    let mut v = v;
    let mut r: Vec<Selector> = Vec::new();
    let ghost all = sels_view(v@);
    // move the selectors over from the back, then insert them from the front
    let mut rev: Vec<Selector> = Vec::new();
    while v.len() > 0
        invariant
            all == sels_view(v@) + sels_view(rev@).reverse(),
        decreases v.len(),
    {
        let ghost before_v = sels_view(v@);
        let ghost before_rev = sels_view(rev@);
        let x = v.pop().unwrap();
        rev.push(x);
        assert(sels_view(v@) =~= before_v.drop_last());
        assert(sels_view(rev@) =~= before_rev.push(x@));
        assert(all =~= sels_view(v@) + sels_view(rev@).reverse());
    }
    assert(sels_view(r@) =~= sort_desc(all.subrange(0, 0)));
    while rev.len() > 0
        invariant
            rev@.len() <= all.len(),
            all.subrange(all.len() - rev@.len(), all.len() as int) =~= sels_view(rev@).reverse(),
            sels_view(r@) == sort_desc(all.subrange(0, all.len() - rev@.len())),
        decreases rev.len(),
    {
        let ghost k = all.len() - rev@.len();
        let ghost before_rev = sels_view(rev@);
        let x = rev.pop().unwrap();
        assert(sels_view(rev@) =~= before_rev.drop_last());
        assert(x@ == all[k]) by {
            assert(before_rev.reverse()[0] == all.subrange(k, all.len() as int)[0]);
        }
        assert(all.subrange(0, k + 1).drop_last() =~= all.subrange(0, k));
        insert_selector(&mut r, x);
        assert forall|i: int| 0 <= i < all.len() - (k + 1) implies #[trigger] all.subrange(k + 1, all.len() as int)[i]
            == sels_view(rev@).reverse()[i] by {
            assert(all.subrange(k + 1, all.len() as int)[i] == all.subrange(k, all.len() as int)[i + 1]);
        }
        assert(all.subrange(k + 1, all.len() as int) =~= sels_view(rev@).reverse());
    }
    assert(all.subrange(0, all.len() as int) =~= all);
    r
}

// ---- the grammar, as functions from a position in the text to what is read there
// and the position after it (`None`: the text does not match). Where a rule
// recurses, the positions it tests always hold of a match; they keep the recursion
// evidently finite.

/// The parts of a simple selector from `p` on, added to `acc`.
pub open spec fn simple_spec(s: Seq<char>, p: int, acc: SelectorModel) -> (SelectorModel, int)
    decreases s.len() - p via simple_spec_decreases
{
    if p < 0 || p >= s.len() {
        (acc, p)
    } else if s[p] == '#' {
        let n = run(s, p + 1, CharClass::Ident);
        simple_spec(s, p + 1 + n, SelectorModel { id: Some(s.subrange(p + 1, p + 1 + n)), ..acc })
    } else if s[p] == '.' {
        let n = run(s, p + 1, CharClass::Ident);
        simple_spec(
            s,
            p + 1 + n,
            SelectorModel { classes: acc.classes.push(s.subrange(p + 1, p + 1 + n)), ..acc },
        )
    } else if s[p] == '*' {
        simple_spec(s, p + 1, acc)
    } else if CharClass::Ident.holds(s[p]) {
        let n = run(s, p, CharClass::Ident);
        simple_spec(s, p + n, SelectorModel { tag: Some(s.subrange(p, p + n)), ..acc })
    } else {
        (acc, p)
    }
}

#[via_fn]
proof fn simple_spec_decreases(s: Seq<char>, p: int, acc: SelectorModel) {
    if 0 <= p < s.len() {
        lemma_run_bound(s, p + 1, CharClass::Ident);
        lemma_run_bound(s, p, CharClass::Ident);
    }
}

pub open spec fn empty_selector() -> SelectorModel {
    SelectorModel { tag: None, id: None, classes: Seq::empty() }
}

/// A comma-separated selector list up to (not including) its `{`, in the order
/// written, after `acc`.
pub open spec fn selectors_spec(s: Seq<char>, p: int, acc: Seq<SelectorModel>) -> Option<
    (Seq<SelectorModel>, int),
>
    decreases s.len() - p via selectors_spec_decreases
{
    let (sel, p1) = simple_spec(s, p, empty_selector());
    if p < 0 || p1 < p || p1 > s.len() {
        None
    } else {
        let p2 = p1 + run(s, p1, CharClass::Whitespace);
        if char_is(s, p2, ',') {
            let p3 = p2 + 1;
            selectors_spec(s, p3 + run(s, p3, CharClass::Whitespace), acc.push(sel))
        } else if char_is(s, p2, '{') {
            Some((acc.push(sel), p2))
        } else {
            None
        }
    }
}

#[via_fn]
proof fn selectors_spec_decreases(s: Seq<char>, p: int, acc: Seq<SelectorModel>) {
    let (sel, p1) = simple_spec(s, p, empty_selector());
    if 0 <= p <= p1 <= s.len() {
        lemma_run_bound(s, p1, CharClass::Whitespace);
        let p3 = p1 + run(s, p1, CharClass::Whitespace) + 1;
        if p3 <= s.len() {
            lemma_run_bound(s, p3, CharClass::Whitespace);
        }
    }
}

/// Whether a number as written has at most one `.`.
pub open spec fn one_point(t: Seq<char>) -> bool {
    forall|i: int, j: int| 0 <= i < j < t.len() ==> !(t[i] == '.' && t[j] == '.')
}

/// Whether an identifier names the unit `px`, in any case.
pub open spec fn is_px(t: Seq<char>) -> bool {
    t.len() == 2 && (t[0] == 'p' || t[0] == 'P') && (t[1] == 'x' || t[1] == 'X')
}

pub open spec fn hex_value(c: char) -> int {
    if '0' <= c && c <= '9' {
        c as int - '0' as int
    } else if 'a' <= c && c <= 'f' {
        c as int - 'a' as int + 10
    } else {
        c as int - 'A' as int + 10
    }
}

pub open spec fn is_hex(c: char) -> bool {
    ('0' <= c && c <= '9') || ('a' <= c && c <= 'f') || ('A' <= c && c <= 'F')
}

/// The byte that two hex digits at `p` write.
pub open spec fn hex_pair(s: Seq<char>, p: int) -> int {
    16 * hex_value(s[p]) + hex_value(s[p + 1])
}

/// A length: a number and the unit `px`.
pub open spec fn length_spec(s: Seq<char>, p: int) -> Option<(ValueModel, int)> {
    let m = run(s, p, CharClass::Numeric);
    let u = run(s, p + m, CharClass::Ident);
    let number = s.subrange(p, p + m);
    if m > 0 && one_point(number) && is_px(s.subrange(p + m, p + m + u)) {
        Some((ValueModel::Length(number, Unit::Px), p + m + u))
    } else {
        None
    }
}

/// A color: `#` and six hex digits.
pub open spec fn color_spec(s: Seq<char>, p: int) -> Option<(ValueModel, int)> {
    if char_is(s, p, '#') && p + 7 <= s.len() && (forall|i: int| p + 1 <= i < p + 7 ==> is_hex(#[trigger] s[i])) {
        Some(
            (
                ValueModel::Color(
                    Color {
                        r: hex_pair(s, p + 1) as u8,
                        g: hex_pair(s, p + 3) as u8,
                        b: hex_pair(s, p + 5) as u8,
                        a: 255,
                    },
                ),
                p + 7,
            ),
        )
    } else {
        None
    }
}

/// A value: a length where it starts with a digit, a color where it starts with `#`,
/// else a keyword (an identifier, as written).
pub open spec fn value_spec(s: Seq<char>, p: int) -> Option<(ValueModel, int)> {
    if p < 0 || p >= s.len() {
        None
    } else if is_digit(s[p]) {
        length_spec(s, p)
    } else if s[p] == '#' {
        color_spec(s, p)
    } else {
        let n = run(s, p, CharClass::Ident);
        Some((ValueModel::Keyword(s.subrange(p, p + n)), p + n))
    }
}

/// A value that starts with neither a digit nor `#` reads as the keyword of its
/// identifier.
pub proof fn lemma_keyword_value(s: Seq<char>, p: int)
    requires
        0 <= p < s.len(),
        !is_digit(s[p]),
        s[p] != '#',
    ensures
        value_spec(s, p) == Some(
            (ValueModel::Keyword(s.subrange(p, p + run(s, p, CharClass::Ident))), p + run(s, p, CharClass::Ident)),
        ),
{
}

/// `name : value ;`, with optional whitespace around the value and the colon.
pub open spec fn declaration_spec(s: Seq<char>, p: int) -> Option<((Seq<char>, ValueModel), int)> {
    let n = run(s, p, CharClass::Ident);
    let p1 = p + n + run(s, p + n, CharClass::Whitespace);
    let p2 = p1 + 1 + run(s, p1 + 1, CharClass::Whitespace);
    if !char_is(s, p1, ':') {
        None
    } else {
        match value_spec(s, p2) {
            None => None,
            Some((v, p3)) => {
                let p4 = p3 + run(s, p3, CharClass::Whitespace);
                if char_is(s, p4, ';') {
                    Some(((s.subrange(p, p + n), v), p4 + 1))
                } else {
                    None
                }
            },
        }
    }
}

/// Declarations up to and including the closing `}`, after `acc`.
pub open spec fn declarations_spec(s: Seq<char>, p: int, acc: Seq<(Seq<char>, ValueModel)>) -> Option<
    (Seq<(Seq<char>, ValueModel)>, int),
>
    decreases s.len() - p,
{
    let p1 = p + run(s, p, CharClass::Whitespace);
    if p < 0 || p1 >= s.len() {
        None
    } else if s[p1] == '}' {
        Some((acc, p1 + 1))
    } else {
        match declaration_spec(s, p1) {
            None => None,
            Some((d, p2)) => if p1 < p2 <= s.len() {
                declarations_spec(s, p2, acc.push(d))
            } else {
                None
            },
        }
    }
}

/// A rule: selectors, then declarations between braces. The selectors are kept
/// from highest specificity down.
pub open spec fn rule_spec(s: Seq<char>, p: int) -> Option<(RuleModel, int)> {
    match selectors_spec(s, p, Seq::empty()) {
        None => None,
        Some((sels, p1)) => match declarations_spec(s, p1 + 1, Seq::empty()) {
            None => None,
            Some((decls, p2)) => Some((RuleModel { selectors: sort_desc(sels), declarations: decls }, p2)),
        },
    }
}

/// Rules separated by optional whitespace, to the end of the text, after `acc`.
pub open spec fn rules_spec(s: Seq<char>, p: int, acc: Seq<RuleModel>) -> Option<Seq<RuleModel>>
    decreases s.len() - p,
{
    let p1 = p + run(s, p, CharClass::Whitespace);
    if p < 0 || p1 > s.len() {
        None
    } else if p1 == s.len() {
        Some(acc)
    } else {
        match rule_spec(s, p1) {
            None => None,
            Some((r, p2)) => if p1 < p2 <= s.len() {
                rules_spec(s, p2, acc.push(r))
            } else {
                None
            },
        }
    }
}

/// The rules that a whole style sheet reads as.
pub open spec fn stylesheet_spec(s: Seq<char>) -> Option<Seq<RuleModel>> {
    rules_spec(s, 0, Seq::empty())
}

// ---- the parser

pub struct Parser {
    pub pos: usize,
    pub input: String,
}

/// Whether `c` may stand in an identifier.
pub fn valid_identifier_char(c: char) -> (r: bool)
    ensures
        r == CharClass::Ident.holds(c),
{
    CharClass::Ident.test(c)
}

fn hex_digit_value(c: char) -> (r: Option<u8>)
    ensures
        r is Some <==> is_hex(c),
        r matches Some(v) ==> v as int == hex_value(c) && v < 16,
{
    if '0' <= c && c <= '9' {
        Some((c as u32 - '0' as u32) as u8)
    } else if 'a' <= c && c <= 'f' {
        Some((c as u32 - 'a' as u32 + 10) as u8)
    } else if 'A' <= c && c <= 'F' {
        Some((c as u32 - 'A' as u32 + 10) as u8)
    } else {
        None
    }
}

impl Parser {
    pub open spec fn wf(&self) -> bool {
        self.pos <= self.input@.len()
    }

    pub open spec fn s(&self) -> Seq<char> {
        self.input@
    }

    fn err(&self, expected: &str) -> (e: SyntaxError) {
        let found = if self.pos < char_len(&self.input) {
            Some(char_at(&self.input, self.pos))
        } else {
            None
        };
        SyntaxError { pos: self.pos, expected: expected.to_owned(), found }
    }

    fn next_char(&self) -> (c: char)
        requires
            self.pos < self.s().len(),
        ensures
            c == self.s()[self.pos as int],
    {
        char_at(&self.input, self.pos)
    }

    fn eof(&self) -> (r: bool)
        ensures
            r == (self.pos >= self.s().len()),
    {
        self.pos >= char_len(&self.input)
    }

    fn consume_char(&mut self) -> (c: char)
        requires
            old(self).pos < old(self).s().len(),
        ensures
            final(self).wf(),
            final(self).input == old(self).input,
            c == old(self).s()[old(self).pos as int],
            final(self).pos == old(self).pos + 1,
    {
        let c = self.next_char();
        // the length in chars bounds the new position, and fits a usize
        let len = char_len(&self.input);
        assert(self.pos + 1 <= len);
        self.pos = self.pos + 1;
        c
    }

    /// Consumes `c`, or fails where the text has anything else.
    fn expect_char(&mut self, c: char) -> (r: Result<(), SyntaxError>)
        requires
            old(self).wf(),
        ensures
            final(self).wf(),
            final(self).input == old(self).input,
            r is Ok <==> char_is(old(self).s(), old(self).pos as int, c),
            r is Ok ==> final(self).pos == old(self).pos + 1,
    {
        if self.eof() {
            return Err(self.err("a character"));
        }
        if self.consume_char() != c {
            return Err(self.err("another character"));
        }
        Ok(())
    }

    fn consume_while(&mut self, k: CharClass) -> (r: String)
        requires
            old(self).wf(),
        ensures
            final(self).wf(),
            final(self).input == old(self).input,
            final(self).pos == old(self).pos + run(old(self).s(), old(self).pos as int, k),
            r@ == old(self).s().subrange(old(self).pos as int, final(self).pos as int),
    {
        let start = self.pos;
        let end = scan_while(&self.input, char_len(&self.input), start, &k);
        self.pos = end;
        substring(&self.input, start, end)
    }

    fn consume_whitespace(&mut self)
        requires
            old(self).wf(),
        ensures
            final(self).wf(),
            final(self).input == old(self).input,
            final(self).pos == old(self).pos + run(old(self).s(), old(self).pos as int, CharClass::Whitespace),
    {
        let _ = self.consume_while(CharClass::Whitespace);
    }

    /// Reads an identifier (possibly empty).
    pub fn parse_identifier(&mut self) -> (r: String)
        requires
            old(self).wf(),
        ensures
            final(self).wf(),
            final(self).input == old(self).input,
            final(self).pos == old(self).pos + run(old(self).s(), old(self).pos as int, CharClass::Ident),
            r@ == old(self).s().subrange(old(self).pos as int, final(self).pos as int),
    {
        self.consume_while(CharClass::Ident)
    }

    /// Reads one simple selector, e.g. `type#id.class1.class2`.
    pub fn parse_simple_selector(&mut self) -> (r: SimpleSelector)
        requires
            old(self).wf(),
        ensures
            final(self).wf(),
            final(self).input == old(self).input,
            (r@, final(self).pos as int) == simple_spec(old(self).s(), old(self).pos as int, empty_selector()),
            final(self).pos >= old(self).pos,
    {
        let mut selector = SimpleSelector { tag_name: None, id: None, class: Vec::new() };
        assert(selector@.classes =~= Seq::<Seq<char>>::empty());
        while !self.eof()
            invariant
                self.wf(),
                self.input == old(self).input,
                self.pos >= old(self).pos,
                simple_spec(self.s(), old(self).pos as int, empty_selector()) == simple_spec(
                    self.s(),
                    self.pos as int,
                    selector@,
                ),
            ensures
                simple_spec(self.s(), old(self).pos as int, empty_selector()) == (selector@, self.pos as int),
            decreases self.s().len() - self.pos,
        {
            let c = self.next_char();
            if c == '#' {
                self.consume_char();
                selector.id = Some(self.parse_identifier());
            } else if c == '.' {
                self.consume_char();
                let ghost before = selector.class@;
                let class = self.parse_identifier();
                let ghost cv = class@;
                selector.class.push(class);
                assert(strs_view(selector.class@) =~= strs_view(before).push(cv));
            } else if c == '*' {
                // the universal selector
                self.consume_char();
            } else if valid_identifier_char(c) {
                selector.tag_name = Some(self.parse_identifier());
            } else {
                break;
            }
        }
        selector
    }

    fn parse_selectors(&mut self) -> (r: Result<Vec<Selector>, SyntaxError>)
        requires
            old(self).wf(),
        ensures
            final(self).wf(),
            final(self).input == old(self).input,
            match selectors_spec(old(self).s(), old(self).pos as int, Seq::empty()) {
                Some((sels, e)) => r matches Ok(v) && sels_view(v@) == sort_desc(sels) && final(self).pos == e,
                None => r is Err,
            },
            r is Ok ==> final(self).pos >= old(self).pos && char_is(final(self).s(), final(self).pos as int, '{'),
    {
        let mut selectors: Vec<Selector> = Vec::new();
        assert(sels_view(selectors@) =~= Seq::<SelectorModel>::empty());
        loop
            invariant_except_break
                selectors_spec(self.s(), old(self).pos as int, Seq::empty()) == selectors_spec(
                    self.s(),
                    self.pos as int,
                    sels_view(selectors@),
                ),
            invariant
                self.wf(),
                self.input == old(self).input,
                self.pos >= old(self).pos,
            ensures
                selectors_spec(self.s(), old(self).pos as int, Seq::empty()) == Some(
                    (sels_view(selectors@), self.pos as int),
                ),
                self.wf(),
                self.input == old(self).input,
                self.pos >= old(self).pos,
                char_is(self.s(), self.pos as int, '{'),
            decreases self.s().len() - self.pos,
        {
            let ghost p0 = self.pos as int;
            let ghost acc = sels_view(selectors@);
            let sel = Selector::Simple(self.parse_simple_selector());
            let ghost p1 = self.pos as int;
            proof {
                lemma_run_stops(self.s(), p1, CharClass::Whitespace);
            }
            selectors.push(sel);
            assert(sels_view(selectors@) =~= acc.push(sel@));
            self.consume_whitespace();
            if self.eof() {
                return Err(self.err("a selector"));
            }
            let c = self.next_char();
            if c == ',' {
                self.consume_char();
                self.consume_whitespace();
            } else if c == '{' {
                break;
            } else {
                return Err(self.err(", or {"));
            }
        }
        Ok(sort_selectors(selectors))
    }

    fn parse_float(&mut self) -> (r: Result<String, SyntaxError>)
        requires
            old(self).wf(),
        ensures
            final(self).wf(),
            final(self).input == old(self).input,
            ({
                let s = old(self).s();
                let p = old(self).pos as int;
                let m = run(s, p, CharClass::Numeric);
                &&& r is Ok <==> (m > 0 && one_point(s.subrange(p, p + m)))
                &&& r matches Ok(n) ==> n@ == s.subrange(p, p + m) && final(self).pos == p + m
            }),
    {
        let ghost p = self.pos as int;
        let number = self.consume_while(CharClass::Numeric);
        let n = char_len(&number);
        if n == 0 {
            return Err(self.err("a number"));
        }
        let mut points: usize = 0;
        let mut first: usize = 0;
        let mut i: usize = 0;
        while i < n
            invariant
                self.wf(),
                self.input == old(self).input,
                self.pos == old(self).pos + run(old(self).s(), old(self).pos as int, CharClass::Numeric),
                number@ == old(self).s().subrange(old(self).pos as int, self.pos as int),
                n == number@.len(),
                i <= n,
                points <= 1,
                points == 0 ==> forall|j: int| 0 <= j < i ==> number@[j] != '.',
                points == 1 ==> first < i && number@[first as int] == '.' && forall|j: int|
                    0 <= j < i && j != first ==> number@[j] != '.',
            decreases n - i,
        {
            if char_at(&number, i) == '.' {
                if points == 1 {
                    assert(!one_point(number@));
                    return Err(self.err("a number"));
                }
                points = 1;
                first = i;
            }
            i = i + 1;
        }
        Ok(number)
    }

    fn parse_unit(&mut self) -> (r: Result<Unit, SyntaxError>)
        requires
            old(self).wf(),
        ensures
            final(self).wf(),
            final(self).input == old(self).input,
            ({
                let s = old(self).s();
                let p = old(self).pos as int;
                let u = run(s, p, CharClass::Ident);
                &&& r is Ok <==> is_px(s.subrange(p, p + u))
                &&& r is Ok ==> r == Ok::<Unit, SyntaxError>(Unit::Px) && final(self).pos == p + u
            }),
    {
        let unit = self.parse_identifier();
        if char_len(&unit) == 2 {
            let a = char_at(&unit, 0);
            let b = char_at(&unit, 1);
            if (a == 'p' || a == 'P') && (b == 'x' || b == 'X') {
                return Ok(Unit::Px);
            }
        }
        Err(self.err("the unit px"))
    }

    /// Reads a length: a number and its unit.
    pub fn parse_length(&mut self) -> (r: Result<Value, SyntaxError>)
        requires
            old(self).wf(),
        ensures
            final(self).wf(),
            final(self).input == old(self).input,
            match length_spec(old(self).s(), old(self).pos as int) {
                Some((v, e)) => r matches Ok(x) && x@ == v && final(self).pos == e,
                None => r is Err,
            },
    {
        let number = self.parse_float()?;
        let unit = self.parse_unit()?;
        Ok(Value::Length(number, unit))
    }

    fn parse_hex_pair(&mut self) -> (r: Result<u8, SyntaxError>)
        requires
            old(self).wf(),
        ensures
            final(self).wf(),
            final(self).input == old(self).input,
            ({
                let s = old(self).s();
                let p = old(self).pos as int;
                &&& r is Ok <==> (p + 2 <= s.len() && is_hex(s[p]) && is_hex(s[p + 1]))
                &&& r matches Ok(v) ==> v as int == hex_pair(s, p) && final(self).pos == p + 2
            }),
    {
        if self.eof() {
            return Err(self.err("a hex digit"));
        }
        let hi = hex_digit_value(self.consume_char());
        if self.eof() {
            return Err(self.err("a hex digit"));
        }
        let lo = hex_digit_value(self.consume_char());
        match (hi, lo) {
            (Some(h), Some(l)) => Ok(h * 16 + l),
            _ => Err(self.err("a hex digit")),
        }
    }

    /// Reads a color: `#` and six hex digits.
    pub fn parse_color(&mut self) -> (r: Result<Value, SyntaxError>)
        requires
            old(self).wf(),
        ensures
            final(self).wf(),
            final(self).input == old(self).input,
            match color_spec(old(self).s(), old(self).pos as int) {
                Some((v, e)) => r matches Ok(x) && x@ == v && final(self).pos == e,
                None => r is Err,
            },
    {
        let ghost s = self.s();
        let ghost p = self.pos as int;
        self.expect_char('#')?;
        let r = self.parse_hex_pair()?;
        let g = self.parse_hex_pair()?;
        let b = self.parse_hex_pair()?;
        assert(forall|i: int| p + 1 <= i < p + 7 ==> is_hex(#[trigger] s[i]));
        Ok(Value::ColorValue(Color { r, g, b, a: 255 }))
    }

    /// Reads a value: a length, a color, or else a keyword as written.
    pub fn parse_value(&mut self) -> (r: Result<Value, SyntaxError>)
        requires
            old(self).wf(),
        ensures
            final(self).wf(),
            final(self).input == old(self).input,
            match value_spec(old(self).s(), old(self).pos as int) {
                Some((v, e)) => r matches Ok(x) && x@ == v && final(self).pos == e,
                None => r is Err,
            },
    {
        if self.eof() {
            return Err(self.err("a value"));
        }
        let c = self.next_char();
        if '0' <= c && c <= '9' {
            self.parse_length()
        } else if c == '#' {
            self.parse_color()
        } else {
            Ok(Value::Keyword(self.parse_identifier()))
        }
    }

    /// Reads `name: value;`.
    pub fn parse_declaration(&mut self) -> (r: Result<Declaration, SyntaxError>)
        requires
            old(self).wf(),
        ensures
            final(self).wf(),
            final(self).input == old(self).input,
            match declaration_spec(old(self).s(), old(self).pos as int) {
                Some((d, e)) => r matches Ok(x) && x@ == d && final(self).pos == e,
                None => r is Err,
            },
    {
        let ghost s = self.s();
        let ghost p = self.pos as int;
        let name = self.parse_identifier();
        self.consume_whitespace();
        self.expect_char(':')?;
        self.consume_whitespace();
        let value = self.parse_value()?;
        self.consume_whitespace();
        self.expect_char(';')?;
        Ok(Declaration { name, value })
    }

    fn parse_declarations(&mut self) -> (r: Result<Vec<Declaration>, SyntaxError>)
        requires
            old(self).wf(),
        ensures
            final(self).wf(),
            final(self).input == old(self).input,
            !char_is(old(self).s(), old(self).pos as int, '{') ==> r is Err,
            char_is(old(self).s(), old(self).pos as int, '{') ==> match declarations_spec(
                old(self).s(),
                old(self).pos + 1,
                Seq::empty(),
            ) {
                Some((ds, e)) => r matches Ok(v) && decls_view(v@) == ds && final(self).pos == e,
                None => r is Err,
            },
            r is Ok ==> final(self).pos > old(self).pos,
    {
        self.expect_char('{')?;
        let ghost p = self.pos;
        let mut declarations: Vec<Declaration> = Vec::new();
        assert(decls_view(declarations@) =~= Seq::<(Seq<char>, ValueModel)>::empty());
        loop
            invariant_except_break
                declarations_spec(self.s(), p as int, Seq::empty()) == declarations_spec(
                    self.s(),
                    self.pos as int,
                    decls_view(declarations@),
                ),
            invariant
                self.wf(),
                self.input == old(self).input,
                p == old(self).pos + 1,
                p <= self.pos,
            ensures
                declarations_spec(self.s(), p as int, Seq::empty()) == Some(
                    (decls_view(declarations@), self.pos as int),
                ),
            decreases self.s().len() - self.pos,
        {
            let ghost p0 = self.pos as int;
            let ghost acc = decls_view(declarations@);
            proof {
                lemma_run_stops(self.s(), p0, CharClass::Whitespace);
            }
            self.consume_whitespace();
            if self.eof() {
                assert(declarations_spec(self.s(), p0, acc) is None);
                return Err(self.err("}"));
            }
            if self.next_char() == '}' {
                self.consume_char();
                break;
            }
            match self.parse_declaration() {
                Ok(d) => {
                    declarations.push(d);
                    assert(decls_view(declarations@) =~= acc.push(d@));
                },
                Err(e) => {
                    assert(declarations_spec(self.s(), p0, acc) is None);
                    return Err(e);
                },
            }
        }
        Ok(declarations)
    }

    fn parse_rule(&mut self) -> (r: Result<Rule, SyntaxError>)
        requires
            old(self).wf(),
        ensures
            final(self).wf(),
            final(self).input == old(self).input,
            match rule_spec(old(self).s(), old(self).pos as int) {
                Some((m, e)) => r matches Ok(x) && x@ == m && final(self).pos == e,
                None => r is Err,
            },
            r is Ok ==> final(self).pos > old(self).pos,
    {
        let selectors = self.parse_selectors()?;
        let declarations = self.parse_declarations()?;
        Ok(Rule { selectors, declarations })
    }

    fn parse_rules(&mut self) -> (r: Result<Vec<Rule>, SyntaxError>)
        requires
            old(self).wf(),
        ensures
            match rules_spec(old(self).s(), old(self).pos as int, Seq::empty()) {
                Some(rs) => r matches Ok(v) && rules_view(v@) == rs,
                None => r is Err,
            },
    {
        let mut rules: Vec<Rule> = Vec::new();
        assert(rules_view(rules@) =~= Seq::<RuleModel>::empty());
        loop
            invariant
                self.wf(),
                self.input == old(self).input,
                rules_spec(self.s(), old(self).pos as int, Seq::empty()) == rules_spec(
                    self.s(),
                    self.pos as int,
                    rules_view(rules@),
                ),
            ensures
                rules_spec(self.s(), old(self).pos as int, Seq::empty()) == Some(rules_view(rules@)),
                self.wf(),
            decreases self.s().len() - self.pos,
        {
            let ghost p0 = self.pos as int;
            let ghost acc = rules_view(rules@);
            proof {
                lemma_run_stops(self.s(), p0, CharClass::Whitespace);
            }
            self.consume_whitespace();
            if self.eof() {
                break;
            }
            match self.parse_rule() {
                Ok(r) => {
                    rules.push(r);
                    assert(rules_view(rules@) =~= acc.push(r@));
                },
                Err(e) => {
                    assert(rules_spec(self.s(), p0, acc) is None);
                    return Err(e);
                },
            }
        }
        Ok(rules)
    }
}

/// Reads a whole style sheet.
pub fn parse(source: String) -> (r: Result<Stylesheet, SyntaxError>)
    ensures
        match stylesheet_spec(source@) {
            Some(rs) => r matches Ok(sheet) && sheet@ == rs,
            None => r is Err,
        },
{
    let mut parser = Parser { pos: 0, input: source };
    let rules = parser.parse_rules()?;
    Ok(Stylesheet { rules })
}

} // verus!
