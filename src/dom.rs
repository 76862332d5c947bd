use vstd::prelude::*;
use crate::scan::{char_len, run, scan_while, substring, CharClass};

verus! {

/// The map that a list of name/value pairs stands for: a later pair wins over an
/// earlier one with the same name.
pub open spec fn pairs_map(s: Seq<(String, String)>) -> Map<Seq<char>, Seq<char>>
    decreases s.len(),
{
    if s.len() == 0 {
        Map::empty()
    } else {
        pairs_map(s.drop_last()).insert(s.last().0@, s.last().1@)
    }
}

proof fn lemma_pairs_map_absent(s: Seq<(String, String)>, k: Seq<char>)
    requires
        forall|i: int| 0 <= i < s.len() ==> s[i].0@ != k,
    ensures
        !pairs_map(s).contains_key(k),
    decreases s.len(),
{
    if s.len() > 0 {
        lemma_pairs_map_absent(s.drop_last(), k);
    }
}

proof fn lemma_pairs_map_last(s: Seq<(String, String)>, i: int)
    requires
        0 <= i < s.len(),
        forall|j: int| i < j < s.len() ==> s[j].0@ != s[i].0@,
    ensures
        pairs_map(s).contains_key(s[i].0@),
        pairs_map(s)[s[i].0@] == s[i].1@,
    decreases s.len(),
{
    if i < s.len() - 1 {
        lemma_pairs_map_last(s.drop_last(), i);
    }
}

/// An element's attributes: names mapped to values, each name at most once.
#[derive(Debug)]
pub struct AttrMap {
    entries: Vec<(String, String)>,
}

impl AttrMap {
    pub closed spec fn view(&self) -> Map<Seq<char>, Seq<char>> {
        pairs_map(self.entries@)
    }

    /// The map without attributes.
    pub fn new() -> (r: AttrMap)
        ensures
            r.view() == Map::<Seq<char>, Seq<char>>::empty(),
    {
        AttrMap { entries: Vec::new() }
    }

    /// Sets `name` to `value`, replacing an earlier value of the same name.
    pub fn insert(&mut self, name: String, value: String)
        ensures
            final(self).view() == old(self).view().insert(name@, value@),
    {
        self.entries.push((name, value));
        assert(final(self).entries@.drop_last() =~= old(self).entries@);
    }

    /// The value of the attribute `name`, if the element has it.
    pub fn get(&self, name: &str) -> (r: Option<&String>)
        ensures
            r matches Some(v) ==> self.view().contains_key(name@) && self.view()[name@] == v@,
            r is None ==> !self.view().contains_key(name@),
    {
        let key = name.to_owned();
        let mut i: usize = self.entries.len();
        // search from the end: the last pair of a name is the one that counts
        while i > 0
            invariant
                i <= self.entries@.len(),
                key@ == name@,
                forall|j: int| i <= j < self.entries@.len() ==> self.entries@[j].0@ != name@,
            decreases i,
        {
            if self.entries[i - 1].0 == key {
                proof {
                    lemma_pairs_map_last(self.entries@, i - 1);
                }
                return Some(&self.entries[i - 1].1);
            }
            i = i - 1;
        }
        proof {
            lemma_pairs_map_absent(self.entries@, name@);
        }
        None
    }
}

impl AttrMap {
    /// Whether every attribute of `self` is in `other` with the same value.
    fn covered_by(&self, other: &AttrMap) -> (r: bool)
        ensures
            r == self.view().submap_of(other.view()),
    {
        let n = self.entries.len();
        let mut i: usize = 0;
        while i < n
            invariant
                n == self.entries@.len(),
                i <= n,
                forall|j: int|
                    0 <= j < i ==> other.view().contains_key(#[trigger] self.entries@[j].0@)
                        && other.view()[self.entries@[j].0@] == self.view()[self.entries@[j].0@],
            decreases n - i,
        {
            let k = self.entries[i].0.as_str();
            let mine = self.get(k);
            let theirs = other.get(k);
            proof {
                assert(self.entries@[i as int].0@ == k@);
                if mine is None {
                    assert(!self.view().contains_key(k@));
                    lemma_pairs_map_present(self.entries@, i as int);
                }
            }
            match (mine, theirs) {
                (Some(a), Some(b)) => {
                    if *a != *b {
                        return false;
                    }
                },
                _ => {
                    assert(!self.view().submap_of(other.view())) by {
                        lemma_pairs_map_present(self.entries@, i as int);
                    }
                    return false;
                },
            }
            i = i + 1;
        }
        assert forall|k: Seq<char>| #[trigger] self.view().contains_key(k) implies other.view().contains_key(k)
            && other.view()[k] == self.view()[k] by {
            if exists|j: int| 0 <= j < self.entries@.len() && self.entries@[j].0@ == k {
                let j = choose|j: int| 0 <= j < self.entries@.len() && self.entries@[j].0@ == k;
                assert(other.view().contains_key(self.entries@[j].0@));
                assert(other.view()[k] == self.view()[k]);
                assert(other.view().contains_key(k));
            } else {
                lemma_pairs_map_absent(self.entries@, k);
            }
        }
        true
    }
}

proof fn lemma_pairs_map_present(s: Seq<(String, String)>, i: int)
    requires
        0 <= i < s.len(),
    ensures
        pairs_map(s).contains_key(s[i].0@),
    decreases s.len(),
{
    if i < s.len() - 1 {
        lemma_pairs_map_present(s.drop_last(), i);
    }
}

/// Two attribute maps are equal when they map the same names to the same values,
/// whatever order the attributes were set in.
impl PartialEq for AttrMap {
    fn eq(&self, other: &AttrMap) -> (r: bool)
        ensures
            r == (self.view() == other.view()),
    {
        let r = self.covered_by(other) && other.covered_by(self);
        proof {
            if r {
                assert(self.view() =~= other.view());
            }
        }
        r
    }
}

impl vstd::std_specs::cmp::PartialEqSpecImpl for AttrMap {
    open spec fn obeys_eq_spec() -> bool {
        true
    }

    open spec fn eq_spec(&self, other: &AttrMap) -> bool {
        self.view() == other.view()
    }
}

/// What a node is, as a value.
pub enum NodeKind {
    Text(Seq<char>),
    Element(Seq<char>, Map<Seq<char>, Seq<char>>),
}

/// A document tree, as a value.
pub struct DomTree {
    pub kind: NodeKind,
    pub children: Seq<DomTree>,
}

#[derive(PartialEq, Debug)]
pub struct Node {
    pub children: Vec<Node>,
    pub node_type: NodeType,
}

#[derive(PartialEq, Debug)]
pub enum NodeType {
    Text(String),
    Element(ElementData),
}

#[derive(PartialEq, Debug)]
pub struct ElementData {
    pub tag_name: String,
    pub attrs: AttrMap,
}

/// The trees of a list of nodes.
pub open spec fn trees(v: Seq<Node>) -> Seq<DomTree> {
    Seq::new(v.len(), |i: int| v[i].tree())
}

impl NodeType {
    pub open spec fn kind(&self) -> NodeKind {
        match self {
            NodeType::Text(t) => NodeKind::Text(t@),
            NodeType::Element(e) => NodeKind::Element(e.tag_name@, e.attrs.view()),
        }
    }
}

impl Node {
    pub open spec fn tree(&self) -> DomTree
        decreases self,
    {
        DomTree {
            kind: self.node_type.kind(),
            children: Seq::new(
                self.children@.len(),
                |i: int|
                    if 0 <= i < self.children@.len() {
                        self.children@[i].tree()
                    } else {
                        DomTree { kind: NodeKind::Text(Seq::empty()), children: Seq::empty() }
                    },
            ),
        }
    }
}

/// Whether `c` is one of the space-separated pieces of `s` from index `i` on
/// (empty pieces included).
pub open spec fn piece_from(s: Seq<char>, i: int, c: Seq<char>) -> bool
    decreases s.len() - i,
{
    let j = i + run(s, i, CharClass::NotQuote(' '));
    if i < 0 || i > s.len() {
        false
    } else {
        s.subrange(i, j) == c || (j < s.len() && piece_from(s, j + 1, c))
    }
}

/// The classes named by a space-separated class attribute.
pub open spec fn class_set(s: Seq<char>) -> Set<Seq<char>> {
    Set::new(|c: Seq<char>| piece_from(s, 0, c))
}

impl ElementData {
    /// The value of the `id` attribute.
    pub fn id(&self) -> (r: Option<&String>)
        ensures
            r matches Some(v) ==> self.attrs.view().contains_key(id_name()) && self.attrs.view()[id_name()] == v@,
            r is None ==> !self.attrs.view().contains_key(id_name()),
    {
        proof {
            reveal_strlit("id");
            assert("id"@ =~= id_name());
        }
        self.attrs.get("id")
    }

    /// The element's classes, in the order they are written.
    pub fn classes(&self) -> (r: Vec<String>)
        ensures
            forall|c: Seq<char>|
                self.class_names().contains(c) <==> exists|k: int| 0 <= k < r@.len() && #[trigger] r@[k]@ == c,
    {
        proof {
            reveal_strlit("class");
            assert("class"@ =~= class_name());
        }
        let mut r: Vec<String> = Vec::new();
        match self.attrs.get("class") {
            Some(list) => {
                let n = char_len(list);
                let mut i: usize = 0;
                loop
                    invariant
                        n == list@.len(),
                        i <= n,
                        self.attrs.view().contains_key(class_name()),
                        self.attrs.view()[class_name()] == list@,
                        forall|c: Seq<char>|
                            piece_from(list@, 0, c) <==> (piece_from(list@, i as int, c) || exists|k: int|
                                0 <= k < r@.len() && #[trigger] r@[k]@ == c),
                    decreases n - i,
                {
                    let j = scan_while(list, n, i, &CharClass::NotQuote(' '));
                    let piece = substring(list, i, j);
                    let ghost old_r = r@;
                    r.push(piece);
                    assert(r@[old_r.len() as int]@ == list@.subrange(i as int, j as int));
                    assert forall|k: int| 0 <= k < old_r.len() implies #[trigger] r@[k] == old_r[k] by {}
                    assert forall|c: Seq<char>|
                        piece_from(list@, 0, c) <==> ((j < n && piece_from(list@, j + 1, c)) || exists|k: int|
                            0 <= k < r@.len() && #[trigger] r@[k]@ == c) by {
                        assert(piece_from(list@, i as int, c) == (list@.subrange(i as int, j as int) == c || (j
                            < n && piece_from(list@, j + 1, c))));
                        if list@.subrange(i as int, j as int) == c {
                            assert(r@[old_r.len() as int]@ == c);
                        }
                        if exists|k: int| 0 <= k < r@.len() && #[trigger] r@[k]@ == c {
                            let k = choose|k: int| 0 <= k < r@.len() && #[trigger] r@[k]@ == c;
                            if k < old_r.len() {
                                assert(old_r[k]@ == c);
                            }
                        }
                        if exists|k: int| 0 <= k < old_r.len() && #[trigger] old_r[k]@ == c {
                            let k = choose|k: int| 0 <= k < old_r.len() && #[trigger] old_r[k]@ == c;
                            assert(r@[k]@ == c);
                        }
                    }
                    if j == n {
                        assert forall|c: Seq<char>|
                            self.class_names().contains(c) <==> exists|k: int|
                                0 <= k < r@.len() && #[trigger] r@[k]@ == c by {
                            assert(self.attrs.view().contains_key(class_name()));
                            assert(self.attrs.view()[class_name()] == list@);
                            assert(class_set(list@).contains(c) == piece_from(list@, 0, c));
                        }
                        return r;
                    }
                    i = j + 1;
                }
            },
            None => r,
        }
    }

    /// The element's classes, as a set.
    pub open spec fn class_names(&self) -> Set<Seq<char>> {
        classes_of(self.attrs.view())
    }
}

/// The classes of an element with attributes `attrs`.
pub open spec fn classes_of(attrs: Map<Seq<char>, Seq<char>>) -> Set<Seq<char>> {
    if attrs.contains_key(class_name()) {
        class_set(attrs[class_name()])
    } else {
        Set::empty()
    }
}

pub open spec fn id_name() -> Seq<char> {
    seq!['i', 'd']
}

pub open spec fn class_name() -> Seq<char> {
    seq!['c', 'l', 'a', 's', 's']
}

/// A text node.
pub fn text(data: String) -> (r: Node)
    ensures
        r.tree() == (DomTree { kind: NodeKind::Text(data@), children: Seq::empty() }),
{
    let r = Node { children: Vec::new(), node_type: NodeType::Text(data) };
    assert(r.tree().children =~= Seq::<DomTree>::empty());
    r
}

/// An element node.
pub fn elem(tag_name: String, attrs: AttrMap, children: Vec<Node>) -> (r: Node)
    ensures
        r.tree() == (DomTree {
            kind: NodeKind::Element(tag_name@, attrs.view()),
            children: trees(children@),
        }),
{
    let ghost a = attrs.view();
    let ghost cs = children@;
    let r = Node { children, node_type: NodeType::Element(ElementData { tag_name, attrs }) };
    assert(r.tree().children =~= trees(cs));
    r
}

} // verus!
