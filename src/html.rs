use crate::dom::{elem, text, trees, AttrMap, DomTree, Node, NodeKind};
use crate::scan::{SyntaxError, at, char_at, char_is, char_len, lemma_run_stops, run, scan_while, substring, text_at, CharClass};
use vstd::prelude::*;

verus! {

// The grammar, as functions from a position in the text to what is read there and
// the position after it (`None`: the text does not match). Where a rule recurses,
// the positions it tests always hold of a match; they keep the recursion evidently
// finite.

/// Attributes up to (not including) the closing `>` of a start tag, added to `acc`.
pub open spec fn attrs_spec(s: Seq<char>, p: int, acc: Map<Seq<char>, Seq<char>>) -> Option<
    (Map<Seq<char>, Seq<char>>, int),
>
    decreases s.len() - p,
{
    let p1 = p + run(s, p, CharClass::Whitespace);
    if p < 0 || p1 >= s.len() {
        None
    } else if s[p1] == '>' {
        Some((acc, p1))
    } else {
        let n = run(s, p1, CharClass::Alnum);
        let name = s.subrange(p1, p1 + n);
        let q = p1 + n + 1;
        if !char_is(s, p1 + n, '=') || !(char_is(s, q, '"') || char_is(s, q, '\'')) {
            None
        } else {
            let v = run(s, q + 1, CharClass::NotQuote(s[q]));
            let e = q + 1 + v;
            if !char_is(s, e, s[q]) {
                None
            } else {
                attrs_spec(s, e + 1, acc.insert(name, s.subrange(q + 1, e)))
            }
        }
    }
}

/// Sibling nodes up to the end of the text or a `</`, appended to `acc`.
pub open spec fn nodes_spec(s: Seq<char>, p: int, acc: Seq<DomTree>) -> Option<(Seq<DomTree>, int)>
    decreases s.len() - p, 2int,
{
    let p1 = p + run(s, p, CharClass::Whitespace);
    if p < 0 || p1 > s.len() {
        None
    } else if p1 == s.len() || at(s, p1, seq!['<', '/']) {
        Some((acc, p1))
    } else {
        match node_spec(s, p1) {
            None => None,
            Some((n, p2)) => if p1 < p2 <= s.len() {
                nodes_spec(s, p2, acc.push(n))
            } else {
                None
            },
        }
    }
}

/// One node: an element where the text has `<`, else a text node.
pub open spec fn node_spec(s: Seq<char>, p: int) -> Option<(DomTree, int)>
    decreases s.len() - p, 1int,
{
    if p < 0 || p >= s.len() {
        None
    } else if s[p] == '<' {
        element_spec(s, p)
    } else {
        let e = p + run(s, p, CharClass::NotLt);
        Some((DomTree { kind: NodeKind::Text(s.subrange(p, e)), children: Seq::empty() }, e))
    }
}

/// One element: start tag, child nodes, and the end tag of the same name.
pub open spec fn element_spec(s: Seq<char>, p: int) -> Option<(DomTree, int)>
    decreases s.len() - p, 0int,
{
    if !char_is(s, p, '<') {
        None
    } else {
        let n = run(s, p + 1, CharClass::Alnum);
        let name = s.subrange(p + 1, p + 1 + n);
        match attrs_spec(s, p + 1 + n, Map::empty()) {
            None => None,
            Some((attrs, p2)) => if !(p < p2 < s.len()) {
                None
            } else {
                match nodes_spec(s, p2 + 1, Seq::empty()) {
                    None => None,
                    Some((kids, p3)) => {
                        let close = seq!['<', '/'] + name + seq!['>'];
                        if at(s, p3, close) {
                            Some(
                                (
                                    DomTree { kind: NodeKind::Element(name, attrs), children: kids },
                                    p3 + close.len(),
                                ),
                            )
                        } else {
                            None
                        }
                    },
                }
            },
        }
    }
}

/// The tree that a whole document reads as: its one top-level node, or else an
/// `html` element around all the top-level nodes.
pub open spec fn document_spec(s: Seq<char>) -> Option<DomTree> {
    match nodes_spec(s, 0, Seq::empty()) {
        Some((ns, e)) => if e != s.len() {
            None
        } else if ns.len() == 1 {
            Some(ns[0])
        } else {
            Some(
                DomTree {
                    kind: NodeKind::Element(seq!['h', 't', 'm', 'l'], Map::empty()),
                    children: ns,
                },
            )
        },
        None => None,
    }
}

/// A document of two or more top-level nodes reads as an `html` element around them,
/// with no attributes.
pub proof fn lemma_auto_root(s: Seq<char>, ns: Seq<DomTree>)
    requires
        nodes_spec(s, 0, Seq::empty()) == Some((ns, s.len() as int)),
        ns.len() >= 2,
    ensures
        document_spec(s) == Some(
            DomTree { kind: NodeKind::Element(seq!['h', 't', 'm', 'l'], Map::empty()), children: ns },
        ),
{
}

pub struct Parser {
    pos: usize,
    len: usize,
    input: String,
}

impl Parser {
    pub closed spec fn wf(&self) -> bool {
        self.pos <= self.len && self.len == self.input@.len()
    }

    spec fn s(&self) -> Seq<char> {
        self.input@
    }

    fn err(&self, expected: &str) -> (e: SyntaxError)
        requires
            self.wf(),
    {
        let found = if self.pos < self.len {
            Some(char_at(&self.input, self.pos))
        } else {
            None
        };
        SyntaxError { pos: self.pos, expected: expected.to_owned(), found }
    }

    fn next_char(&self) -> (c: char)
        requires
            self.wf(),
            self.pos < self.len,
        ensures
            c == self.s()[self.pos as int],
    {
        char_at(&self.input, self.pos)
    }

    fn starts_with(&self, t: &str) -> (r: bool)
        requires
            self.wf(),
        ensures
            r == at(self.s(), self.pos as int, t@),
    {
        text_at(&self.input, self.len, self.pos, t)
    }

    fn expect(&mut self, t: &str) -> (r: Result<(), SyntaxError>)
        requires
            old(self).wf(),
        ensures
            final(self).wf(),
            final(self).input == old(self).input,
            r is Ok <==> at(old(self).s(), old(self).pos as int, t@),
            r is Ok ==> final(self).pos == old(self).pos + t@.len(),
    {
        if self.starts_with(t) {
            self.pos = self.pos + t.unicode_len();
            Ok(())
        } else {
            Err(self.err(t))
        }
    }

    fn eof(&self) -> (r: bool)
        requires
            self.wf(),
        ensures
            r == (self.pos >= self.s().len()),
    {
        self.pos >= self.len
    }

    fn consume_char(&mut self) -> (c: char)
        requires
            old(self).wf(),
            old(self).pos < old(self).len,
        ensures
            final(self).wf(),
            final(self).input == old(self).input,
            c == old(self).s()[old(self).pos as int],
            final(self).pos == old(self).pos + 1,
    {
        let c = self.next_char();
        self.pos = self.pos + 1;
        c
    }

    fn consume_while(&mut self, k: CharClass) -> (r: String)
        requires
            old(self).wf(),
        ensures
            final(self).wf(),
            final(self).input == old(self).input,
            final(self).pos == old(self).pos + run(old(self).s(), old(self).pos as int, k),
            r@ == old(self).s().subrange(old(self).pos as int, final(self).pos as int),
    {
        let start = self.pos;
        let end = scan_while(&self.input, self.len, start, &k);
        self.pos = end;
        substring(&self.input, start, end)
    }

    fn consume_whitespace(&mut self)
        requires
            old(self).wf(),
        ensures
            final(self).wf(),
            final(self).input == old(self).input,
            final(self).pos == old(self).pos + run(old(self).s(), old(self).pos as int, CharClass::Whitespace),
    {
        let _ = self.consume_while(CharClass::Whitespace);
    }

    fn parse_name(&mut self) -> (r: String)
        requires
            old(self).wf(),
        ensures
            final(self).wf(),
            final(self).input == old(self).input,
            final(self).pos == old(self).pos + run(old(self).s(), old(self).pos as int, CharClass::Alnum),
            r@ == old(self).s().subrange(old(self).pos as int, final(self).pos as int),
    {
        self.consume_while(CharClass::Alnum)
    }

    fn parse_attr_value(&mut self) -> (r: Result<String, SyntaxError>)
        requires
            old(self).wf(),
        ensures
            final(self).wf(),
            final(self).input == old(self).input,
            ({
                let s = old(self).s();
                let q = old(self).pos as int;
                let e = q + 1 + run(s, q + 1, CharClass::NotQuote(s[q]));
                &&& r is Ok <==> ((char_is(s, q, '"') || char_is(s, q, '\'')) && char_is(s, e, s[q]))
                &&& r matches Ok(v) ==> v@ == s.subrange(q + 1, e) && final(self).pos == e + 1
            }),
    {
        if self.eof() {
            return Err(self.err("a quote"));
        }
        let open_quote = self.consume_char();
        if open_quote != '"' && open_quote != '\'' {
            return Err(self.err("a quote"));
        }
        let value = self.consume_while(CharClass::NotQuote(open_quote));
        if self.eof() {
            return Err(self.err("a closing quote"));
        }
        let close_quote = self.consume_char();
        if close_quote != open_quote {
            return Err(self.err("a closing quote"));
        }
        Ok(value)
    }

    fn parse_attr(&mut self) -> (r: Result<(String, String), SyntaxError>)
        requires
            old(self).wf(),
        ensures
            final(self).wf(),
            final(self).input == old(self).input,
            ({
                let s = old(self).s();
                let p1 = old(self).pos as int;
                let n = run(s, p1, CharClass::Alnum);
                let q = p1 + n + 1;
                let e = q + 1 + run(s, q + 1, CharClass::NotQuote(s[q]));
                &&& r is Ok <==> (char_is(s, p1 + n, '=') && (char_is(s, q, '"') || char_is(s, q, '\''))
                    && char_is(s, e, s[q]))
                &&& r matches Ok(kv) ==> kv.0@ == s.subrange(p1, p1 + n) && kv.1@ == s.subrange(q + 1, e)
                    && final(self).pos == e + 1
            }),
    {
        let name = self.parse_name();
        if self.eof() || self.next_char() != '=' {
            return Err(self.err("="));
        }
        self.pos = self.pos + 1;
        let value = self.parse_attr_value()?;
        Ok((name, value))
    }

    fn parse_attributes(&mut self) -> (r: Result<AttrMap, SyntaxError>)
        requires
            old(self).wf(),
        ensures
            final(self).wf(),
            final(self).input == old(self).input,
            match attrs_spec(old(self).s(), old(self).pos as int, Map::empty()) {
                Some((m, e)) => r matches Ok(a) && a.view() == m && final(self).pos == e,
                None => r is Err,
            },
            r is Ok ==> old(self).pos <= final(self).pos < final(self).len && final(self).s()[final(self).pos as int] == '>',
    {
        let mut attributes = AttrMap::new();
        loop
            invariant
                self.wf(),
                self.input == old(self).input,
                self.len == old(self).len,
                old(self).pos <= self.pos,
                attrs_spec(self.s(), old(self).pos as int, Map::empty()) == attrs_spec(
                    self.s(),
                    self.pos as int,
                    attributes.view(),
                ),
            ensures
                self.pos < self.len,
                self.s()[self.pos as int] == '>',
                attrs_spec(self.s(), old(self).pos as int, Map::empty()) == Some(
                    (attributes.view(), self.pos as int),
                ),
            decreases self.len - self.pos,
        {
            let ghost p0 = self.pos as int;
            let ghost acc = attributes.view();
            proof {
                lemma_run_stops(self.s(), p0, CharClass::Whitespace);
            }
            self.consume_whitespace();
            if self.eof() {
                return Err(self.err(">"));
            }
            if self.next_char() == '>' {
                assert(attrs_spec(self.s(), self.pos as int, acc) == Some((acc, self.pos as int)));
                break;
            }
            match self.parse_attr() {
                Ok((name, value)) => {
                    attributes.insert(name, value);
                },
                Err(e) => {
                    assert(attrs_spec(self.s(), p0, acc) is None);
                    return Err(e);
                },
            }
        }
        Ok(attributes)
    }

    fn parse_text(&mut self) -> (r: Node)
        requires
            old(self).wf(),
        ensures
            final(self).wf(),
            final(self).input == old(self).input,
            final(self).pos == old(self).pos + run(old(self).s(), old(self).pos as int, CharClass::NotLt),
            r.tree() == (DomTree {
                kind: NodeKind::Text(old(self).s().subrange(old(self).pos as int, final(self).pos as int)),
                children: Seq::empty(),
            }),
    {
        text(self.consume_while(CharClass::NotLt))
    }

    fn parse_node(&mut self) -> (r: Result<Node, SyntaxError>)
        requires
            old(self).wf(),
        ensures
            final(self).wf(),
            final(self).input == old(self).input,
            match node_spec(old(self).s(), old(self).pos as int) {
                Some((n, e)) => r matches Ok(x) && x.tree() == n && final(self).pos == e,
                None => r is Err,
            },
            r is Ok ==> final(self).pos > old(self).pos,
        decreases old(self).len - old(self).pos, 1int,
    {
        if self.eof() {
            return Err(self.err("a node"));
        }
        if self.next_char() == '<' {
            self.parse_element()
        } else {
            Ok(self.parse_text())
        }
    }

    fn parse_element(&mut self) -> (r: Result<Node, SyntaxError>)
        requires
            old(self).wf(),
        ensures
            final(self).wf(),
            final(self).input == old(self).input,
            match element_spec(old(self).s(), old(self).pos as int) {
                Some((n, e)) => r matches Ok(x) && x.tree() == n && final(self).pos == e,
                None => r is Err,
            },
            r is Ok ==> final(self).pos > old(self).pos,
        decreases old(self).len - old(self).pos, 0int,
    {
        let ghost s = self.s();
        let ghost p = self.pos as int;
        proof {
            reveal_strlit("<");
            reveal_strlit(">");
            reveal_strlit("</");
            assert("</"@ =~= seq!['<', '/']);
        }
        if self.eof() || self.next_char() != '<' {
            return Err(self.err("<"));
        }
        self.pos = self.pos + 1;
        let tag_name = self.parse_name();
        let attrs = self.parse_attributes()?;
        // `parse_attributes` stops on the `>`
        self.pos = self.pos + 1;
        let children = self.parse_nodes()?;
        let ghost p3 = self.pos as int;
        let ghost close = seq!['<', '/'] + tag_name@ + seq!['>'];
        let ghost n = tag_name@.len() as int;
        proof {
            assert(close.subrange(0, 2) =~= seq!['<', '/']);
            assert(close.subrange(2, 2 + n) =~= tag_name@);
            assert(close.subrange(2 + n, 3 + n) =~= seq!['>']);
            assert(">"@ =~= seq!['>']);
            if at(s, p3, close) {
                assert(s.subrange(p3, p3 + 2) =~= s.subrange(p3, p3 + close.len()).subrange(0, 2));
                assert(s.subrange(p3 + 2, p3 + 2 + n) =~= s.subrange(p3, p3 + close.len()).subrange(2, 2 + n));
                assert(s.subrange(p3 + 2 + n, p3 + 3 + n) =~= s.subrange(p3, p3 + close.len()).subrange(
                    2 + n,
                    3 + n,
                ));
            }
        }
        self.expect("</")?;
        self.expect(tag_name.as_str())?;
        self.expect(">")?;
        assert(at(s, p3, close)) by {
            assert(s.subrange(p3, p3 + close.len()) =~= close);
        }
        Ok(elem(tag_name, attrs, children))
    }

    fn parse_nodes(&mut self) -> (r: Result<Vec<Node>, SyntaxError>)
        requires
            old(self).wf(),
        ensures
            final(self).wf(),
            final(self).input == old(self).input,
            match nodes_spec(old(self).s(), old(self).pos as int, Seq::empty()) {
                Some((ns, e)) => r matches Ok(v) && trees(v@) == ns && final(self).pos == e,
                None => r is Err,
            },
            r is Ok ==> final(self).pos >= old(self).pos,
        decreases old(self).len - old(self).pos, 2int,
    {
        let mut nodes: Vec<Node> = Vec::new();
        proof {
            reveal_strlit("</");
            assert("</"@ =~= seq!['<', '/']);
            assert(trees(nodes@) =~= Seq::<DomTree>::empty());
        }
        loop
            invariant
                self.wf(),
                self.input == old(self).input,
                self.len == old(self).len,
                old(self).pos <= self.pos,
                nodes_spec(self.s(), old(self).pos as int, Seq::empty()) == nodes_spec(
                    self.s(),
                    self.pos as int,
                    trees(nodes@),
                ),
            ensures
                nodes_spec(self.s(), old(self).pos as int, Seq::empty()) == Some(
                    (trees(nodes@), self.pos as int),
                ),
            decreases self.len - self.pos,
        {
            let ghost p0 = self.pos as int;
            let ghost acc = trees(nodes@);
            proof {
                lemma_run_stops(self.s(), p0, CharClass::Whitespace);
            }
            self.consume_whitespace();
            proof {
                reveal_strlit("</");
                assert("</"@ =~= seq!['<', '/']);
            }
            if self.eof() || self.starts_with("</") {
                assert(nodes_spec(self.s(), self.pos as int, acc) == Some((acc, self.pos as int)));
                break;
            }
            let ghost before = nodes@;
            match self.parse_node() {
                Ok(n) => {
                    nodes.push(n);
                    assert(trees(nodes@) =~= trees(before).push(n.tree()));
                },
                Err(e) => {
                    assert(nodes_spec(self.s(), p0, acc) is None);
                    return Err(e);
                },
            }
        }
        Ok(nodes)
    }

    /// Reads a whole document.
    pub fn parse(source: String) -> (r: Result<Node, SyntaxError>)
        ensures
            match document_spec(source@) {
                Some(t) => r matches Ok(n) && n.tree() == t,
                None => r is Err,
            },
    {
        let len = char_len(&source);
        let mut parser = Parser { pos: 0, len, input: source };
        let mut nodes = parser.parse_nodes()?;
        if parser.pos < parser.len {
            return Err(parser.err("the end of the text"));
        }
        if nodes.len() == 1 {
            let ghost ns = nodes@;
            let n = nodes.remove(0);
            assert(n.tree() == trees(ns)[0]);
            Ok(n)
        } else {
            let ghost ns = nodes@;
            let r = elem("html".to_owned(), AttrMap::new(), nodes);
            proof {
                reveal_strlit("html");
                assert("html"@ =~= seq!['h', 't', 'm', 'l']);
            }
            Ok(r)
        }
    }
}

} // verus!
