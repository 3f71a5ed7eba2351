//! The markup parser: text to a DOM tree.
use vstd::prelude::*;
use crate::error::{Expected, ParseError, ok_at, fails};
use crate::text::{
    lemma_vec_len,
    CharClass, in_class, is_alnum, is_space, scan_end, lemma_scan_end, lemma_scan_run, starts_at, find_from, lemma_find_from,
    scan, holds_at, find, string_of, chars_of,
};

verus! {

/// Attributes of an element, in source order. A later entry for a name
/// shadows every earlier one, so the map seen through `view` has one value
/// per name: the last one written.
pub struct AttrMap {
    entries: Vec<(String, String)>,
}

pub struct ElementData {
    pub tag_name: String,
    pub attributes: AttrMap,
}

pub enum NodeType {
    Text(String),
    Element(ElementData),
    Comment(String),
}

pub struct Node {
    pub children: Vec<Node>,
    pub node_type: NodeType,
}

/// An attribute list as plain text pairs.
pub type AttrList = Seq<(Seq<char>, Seq<char>)>;

/// The map that an attribute list denotes: the last entry for a name wins.
pub open spec fn attr_map(l: AttrList) -> Map<Seq<char>, Seq<char>>
    decreases l.len(),
{
    if l.len() == 0 {
        Map::empty()
    } else {
        attr_map(l.drop_last()).insert(l.last().0, l.last().1)
    }
}

/// What a DOM node is, as mathematical values.
pub enum DomKind {
    Text(Seq<char>),
    Comment(Seq<char>),
    Element(Seq<char>, Map<Seq<char>, Seq<char>>),
}

pub struct DomNode {
    pub kind: DomKind,
    pub children: Seq<DomNode>,
}

pub open spec fn entry_view(e: (String, String)) -> (Seq<char>, Seq<char>) {
    (e.0@, e.1@)
}

impl AttrMap {
    pub closed spec fn list(&self) -> AttrList {
        self.entries@.map_values(|e: (String, String)| entry_view(e))
    }

    pub open spec fn view(&self) -> Map<Seq<char>, Seq<char>> {
        attr_map(self.list())
    }
}

pub open spec fn kind_view(t: NodeType) -> DomKind {
    match t {
        NodeType::Text(s) => DomKind::Text(s@),
        NodeType::Comment(s) => DomKind::Comment(s@),
        NodeType::Element(e) => DomKind::Element(e.tag_name@, e.attributes.view()),
    }
}

pub open spec fn nodes_view(ns: Seq<Node>) -> Seq<DomNode>
    decreases ns,
{
    if ns.len() == 0 {
        Seq::empty()
    } else {
        nodes_view(ns.drop_last()).push(node_view(ns.last()))
    }
}

pub open spec fn node_view(n: Node) -> DomNode
    decreases n,
{
    DomNode { kind: kind_view(n.node_type), children: nodes_view(n.children@) }
}

pub proof fn lemma_nodes_view(ns: Seq<Node>)
    ensures
        nodes_view(ns).len() == ns.len(),
        forall|i: int| 0 <= i < ns.len() ==> nodes_view(ns)[i] == #[trigger] node_view(ns[i]),
    decreases ns.len(),
{
    if ns.len() > 0 {
        lemma_nodes_view(ns.drop_last());
        assert forall|i: int| 0 <= i < ns.len() implies nodes_view(ns)[i] == #[trigger] node_view(ns[i]) by {
            if i < ns.len() - 1 {
                assert(ns.drop_last()[i] == ns[i]);
            }
        }
    }
}

impl View for Node {
    type V = DomNode;

    open spec fn view(&self) -> DomNode {
        node_view(*self)
    }
}

/// The failure at `p` when something matching `expected` was wanted there.
pub open spec fn fail_at(s: Seq<char>, p: int, expected: Expected) -> ParseError {
    if p >= s.len() {
        ParseError::UnexpectedEof
    } else {
        ParseError::UnexpectedChar { expected, found: s[p], position: p as usize }
    }
}

/// `TagName := [A-Za-z0-9]+`, also used for attribute names.
pub open spec fn name_at(s: Seq<char>, p: int) -> Result<(Seq<char>, int), ParseError> {
    let e = scan_end(s, p, CharClass::Alnum);
    if e == p {
        Err(fail_at(s, p, Expected::Name))
    } else {
        Ok((s.subrange(p, e), e))
    }
}

pub open spec fn is_quote(c: char) -> bool {
    c == '"' || c == '\''
}

/// `Attribute := Name '=' Quote Value Quote`, the closing quote being the opening one.
pub open spec fn attr_at(s: Seq<char>, p: int) -> Result<((Seq<char>, Seq<char>), int), ParseError> {
    match name_at(s, p) {
        Err(e) => Err(e),
        Ok((name, q)) => {
            if q >= s.len() || s[q] != '=' {
                Err(fail_at(s, q, Expected::Char('=')))
            } else if q + 1 >= s.len() || !is_quote(s[q + 1]) {
                Err(fail_at(s, q + 1, Expected::Char('"')))
            } else {
                let e = scan_end(s, q + 2, CharClass::Not(s[q + 1]));
                if e >= s.len() {
                    Err(ParseError::UnterminatedAttribute)
                } else {
                    Ok(((name, s.subrange(q + 2, e)), e + 1))
                }
            }
        },
    }
}

/// `Attribute*` then `>`, each attribute after optional whitespace.
pub open spec fn attrs_at(s: Seq<char>, p: int) -> Result<(AttrList, int), ParseError>
    decreases s.len() - p,
{
    let q = scan_end(s, p, CharClass::Space);
    if q >= s.len() {
        Err(ParseError::UnexpectedEof)
    } else if s[q] == '>' {
        Ok((Seq::empty(), q + 1))
    } else {
        match attr_at(s, q) {
            Err(e) => Err(e),
            Ok((a, r)) => {
                // never taken: an attribute is at least four characters long
                if r <= p {
                    Err(ParseError::UnexpectedEof)
                } else {
                    match attrs_at(s, r) {
                        Err(e) => Err(e),
                        Ok((rest, t)) => Ok((seq![a] + rest, t)),
                    }
                }
            },
        }
    }
}

pub open spec fn close_lit() -> Seq<char> {
    seq!['<', '/']
}

pub open spec fn comment_open() -> Seq<char> {
    seq!['<', '!', '-', '-']
}

pub open spec fn comment_close() -> Seq<char> {
    seq!['-', '-', '>']
}

pub open spec fn text_at(s: Seq<char>, p: int) -> (DomNode, int) {
    let e = scan_end(s, p, CharClass::Not('<'));
    (DomNode { kind: DomKind::Text(s.subrange(p, e)), children: Seq::empty() }, e)
}

/// `Comment := '<!--' AnyCharsUntil('-->') '-->'`, with `<!--` at `p`.
pub open spec fn comment_at(s: Seq<char>, p: int) -> Result<(DomNode, int), ParseError> {
    let e = find_from(s, p + 4, comment_close());
    if e >= s.len() {
        Err(ParseError::UnexpectedEof)
    } else {
        Ok((DomNode { kind: DomKind::Comment(s.subrange(p + 4, e)), children: Seq::empty() }, e + 3))
    }
}

/// Elements nest at most this deep; deeper markup is `NestingTooDeep`, so
/// parsing, styling and layout recurse a bounded number of times.
pub const MAX_DEPTH: usize = 256;

/// The sibling nodes from `p` up to the end of the input or the first `</`,
/// whitespace before each node skipped, inside `d` enclosing elements.
pub open spec fn nodes_at(s: Seq<char>, p: int, d: int) -> Result<(Seq<DomNode>, int), ParseError>
    decreases s.len() - p, 2int,
{
    if p < 0 || p > s.len() {
        Err(ParseError::UnexpectedEof)
    } else {
        let q = scan_end(s, p, CharClass::Space);
        proof {
            lemma_scan_end(s, p, CharClass::Space);
        }
        if q >= s.len() || starts_at(s, q, close_lit()) {
            Ok((Seq::empty(), q))
        } else {
            match node_at(s, q, d) {
                Err(e) => Err(e),
                Ok((n, r)) => {
                    // never taken: a node is at least one character long; the
                    // test states it for the termination check
                    if r <= q || r > s.len() {
                        Err(ParseError::UnexpectedEof)
                    } else {
                        match nodes_at(s, r, d) {
                            Err(e) => Err(e),
                            Ok((rest, t)) => Ok((seq![n] + rest, t)),
                        }
                    }
                },
            }
        }
    }
}

/// `Node := Element | Comment | Text`, at a position that holds a character.
pub open spec fn node_at(s: Seq<char>, p: int, d: int) -> Result<(DomNode, int), ParseError>
    decreases s.len() - p, 1int,
{
    if p < 0 || p >= s.len() {
        Err(ParseError::UnexpectedEof)
    } else if starts_at(s, p, comment_open()) {
        comment_at(s, p)
    } else if s[p] == '<' {
        element_at(s, p, d)
    } else {
        Ok(text_at(s, p))
    }
}

/// `Element := '<' TagName Attribute* '>' Node* '</' AnyChars '>'`, with `<` at `p`.
pub open spec fn element_at(s: Seq<char>, p: int, d: int) -> Result<(DomNode, int), ParseError>
    decreases s.len() - p, 0int,
{
    if p < 0 || p >= s.len() {
        Err(ParseError::UnexpectedEof)
    } else if d >= MAX_DEPTH {
        Err(ParseError::NestingTooDeep)
    } else {
        match name_at(s, p + 1) {
            Err(e) => Err(e),
            Ok((tag, q)) => match attrs_at(s, q) {
                Err(e) => Err(e),
                Ok((attrs, r)) => {
                    // never taken: the start tag ends after its `<`
                    if r <= p || r > s.len() {
                        Err(ParseError::UnexpectedEof)
                    } else {
                        match nodes_at(s, r, d + 1) {
                            Err(e) => Err(e),
                            Ok((kids, t)) => {
                                let e = scan_end(s, t + 2, CharClass::Not('>'));
                                if t >= s.len() || e >= s.len() {
                                    Err(ParseError::UnexpectedEof)
                                } else {
                                    Ok((
                                        DomNode {
                                            kind: DomKind::Element(tag, attr_map(attrs)),
                                            children: kids,
                                        },
                                        e + 1,
                                    ))
                                }
                            },
                        }
                    }
                },
            },
        }
    }
}

/// The DOM tree that `s` denotes: its one top-level node, or an `html`
/// element with no attributes around all of them.
pub open spec fn dom_of(s: Seq<char>) -> Result<DomNode, ParseError> {
    match nodes_at(s, 0, 0) {
        Err(e) => Err(e),
        Ok((ns, t)) => {
            if t < s.len() {
                Err(fail_at(s, t, Expected::EndOfInput))
            } else if ns.len() == 1 {
                Ok(ns[0])
            } else {
                Ok(DomNode { kind: DomKind::Element(html_tag(), Map::empty()), children: ns })
            }
        },
    }
}

pub open spec fn html_tag() -> Seq<char> {
    seq!['h', 't', 'm', 'l']
}

/// Sibling results `rest` after the nodes `acc` already read.
pub open spec fn after<T>(acc: Seq<T>, r: Result<(Seq<T>, int), ParseError>) -> Result<(Seq<T>, int), ParseError> {
    match r {
        Ok((rest, t)) => Ok((acc + rest, t)),
        Err(e) => Err(e),
    }
}

pub fn text(data: String) -> (r: Node)
    ensures
        r@ == (DomNode { kind: DomKind::Text(data@), children: Seq::empty() }),
{
    let r = Node { children: Vec::new(), node_type: NodeType::Text(data) };
    assert(nodes_view(r.children@) =~= Seq::empty());
    r
}

pub fn elem(tag_name: String, attributes: AttrMap, children: Vec<Node>) -> (r: Node)
    ensures
        r@ == (DomNode {
            kind: DomKind::Element(tag_name@, attributes@),
            children: nodes_view(children@),
        }),
{
    Node { children, node_type: NodeType::Element(ElementData { tag_name, attributes }) }
}

pub fn comment(data: String) -> (r: Node)
    ensures
        r@ == (DomNode { kind: DomKind::Comment(data@), children: Seq::empty() }),
{
    let r = Node { children: Vec::new(), node_type: NodeType::Comment(data) };
    assert(nodes_view(r.children@) =~= Seq::empty());
    r
}

impl AttrMap {
    pub fn new() -> (r: AttrMap)
        ensures
            r.list() == Seq::<(Seq<char>, Seq<char>)>::empty(),
            r@ == Map::<Seq<char>, Seq<char>>::empty(),
    {
        let r = AttrMap { entries: Vec::new() };
        assert(r.list() =~= Seq::empty());
        r
    }

    /// Sets `name` to `value`, replacing any earlier value.
    pub fn insert(&mut self, name: String, value: String)
        ensures
            final(self).list() == old(self).list().push((name@, value@)),
            final(self)@ == old(self)@.insert(name@, value@),
    {
        self.entries.push((name, value));
        assert(self.list() =~= old(self).list().push((name@, value@)));
        assert(self.list().drop_last() =~= old(self).list());
    }

    /// The value of `name`, if it is set.
    pub fn get(&self, name: &String) -> (r: Option<&String>)
        ensures
            r matches Some(v) ==> self@.contains_key(name@) && v@ == self@[name@],
            r is None ==> !self@.contains_key(name@),
    {
        let ghost l = self.list();
        let mut i = self.entries.len();
        assert(l.subrange(0, i as int) =~= l);
        while i > 0
            invariant
                i <= self.entries@.len(),
                l.len() == self.entries@.len(),
                l == self.list(),
                attr_map(l.subrange(0, i as int)).contains_key(name@) == self@.contains_key(name@),
                attr_map(l.subrange(0, i as int)).contains_key(name@) ==> attr_map(l.subrange(0, i as int))[name@] == self@[name@],
            decreases i,
        {
            let k = i - 1;
            assert(l.subrange(0, i as int).drop_last() =~= l.subrange(0, k as int));
            if self.entries[k].0 == *name {
                return Some(&self.entries[k].1);
            }
            i = k;
        }
        assert(l.subrange(0, 0) =~= Seq::<(Seq<char>, Seq<char>)>::empty());
        None
    }
}

/// A cursor over the characters of a markup text.
pub struct Parser {
    pos: usize,
    input: Vec<char>,
}

impl Parser {
    fn next_char(&self) -> (r: char)
        requires
            self.pos < self.input@.len(),
        ensures
            r == self.input@[self.pos as int],
            self.input@.len() <= usize::MAX,
    {
        proof {
            lemma_vec_len(&self.input);
        }
        self.input[self.pos]
    }

    fn eof(&self) -> (r: bool)
        ensures
            r == (self.pos >= self.input@.len()),
            self.input@.len() <= usize::MAX,
    {
        self.pos >= self.input.len()
    }

    fn consume_while(&mut self, k: CharClass) -> (r: String)
        requires
            old(self).pos <= old(self).input@.len(),
        ensures
            final(self).input == old(self).input,
            final(self).pos == scan_end(old(self).input@, old(self).pos as int, k),
            old(self).pos <= final(self).pos <= final(self).input@.len(),
            r@ == old(self).input@.subrange(old(self).pos as int, final(self).pos as int),
    {
        let start = self.pos;
        let end = scan(&self.input, start, k);
        proof {
            lemma_scan_end(self.input@, start as int, k);
        }
        self.pos = end;
        string_of(&self.input, start, end)
    }

    fn consume_whitespace(&mut self)
        requires
            old(self).pos <= old(self).input@.len(),
        ensures
            final(self).input == old(self).input,
            final(self).pos == scan_end(old(self).input@, old(self).pos as int, CharClass::Space),
            old(self).pos <= final(self).pos <= final(self).input@.len(),
    {
        proof {
            lemma_scan_end(self.input@, self.pos as int, CharClass::Space);
        }
        self.pos = scan(&self.input, self.pos, CharClass::Space);
    }

    fn parse_tag_name(&mut self) -> (r: Result<String, ParseError>)
        requires
            old(self).pos <= old(self).input@.len(),
        ensures
            final(self).input == old(self).input,
            final(self).pos <= final(self).input@.len(),
            match r {
                Ok(t) => name_at(old(self).input@, old(self).pos as int) == ok_at(t@, final(self).pos as int)
                    && old(self).pos < final(self).pos,
                Err(e) => name_at(old(self).input@, old(self).pos as int) == fails::<Seq<char>>(e),
            },
    {
        let start = self.pos;
        proof {
            lemma_scan_end(self.input@, start as int, CharClass::Alnum);
        }
        let t = self.consume_while(CharClass::Alnum);
        if self.pos == start {
            if self.eof() {
                Err(ParseError::UnexpectedEof)
            } else {
                Err(ParseError::UnexpectedChar { expected: Expected::Name, found: self.next_char(), position: start })
            }
        } else {
            Ok(t)
        }
    }

    fn parse_attr_value(&mut self) -> (r: Result<(String, String), ParseError>)
        requires
            old(self).pos <= old(self).input@.len(),
        ensures
            final(self).input == old(self).input,
            final(self).pos <= final(self).input@.len(),
            match r {
                Ok((n, v)) => attr_at(old(self).input@, old(self).pos as int)
                    == ok_at((n@, v@), final(self).pos as int) && old(self).pos < final(self).pos,
                Err(e) => attr_at(old(self).input@, old(self).pos as int) == fails::<(Seq<char>, Seq<char>)>(e),
            },
    {
        let name = match self.parse_tag_name() {
            Ok(n) => n,
            Err(e) => return Err(e),
        };
        let q = self.pos;
        if self.eof() || self.next_char() != '=' {
            return if self.eof() {
                Err(ParseError::UnexpectedEof)
            } else {
                Err(ParseError::UnexpectedChar { expected: Expected::Char('='), found: self.next_char(), position: q })
            };
        }
        self.pos = q + 1;
        if self.eof() || (self.next_char() != '"' && self.next_char() != '\'') {
            return if self.eof() {
                Err(ParseError::UnexpectedEof)
            } else {
                Err(ParseError::UnexpectedChar { expected: Expected::Char('"'), found: self.next_char(), position: q + 1 })
            };
        }
        let open_quote = self.next_char();
        self.pos = q + 2;
        let value = self.consume_while(CharClass::Not(open_quote));
        proof {
            lemma_scan_end(self.input@, q + 2, CharClass::Not(open_quote));
        }
        if self.eof() {
            return Err(ParseError::UnterminatedAttribute);
        }
        self.pos = self.pos + 1;
        Ok((name, value))
    }

    fn parse_attributes(&mut self) -> (r: Result<AttrMap, ParseError>)
        requires
            old(self).pos <= old(self).input@.len(),
        ensures
            final(self).input == old(self).input,
            final(self).pos <= final(self).input@.len(),
            match r {
                Ok(m) => attrs_at(old(self).input@, old(self).pos as int) == ok_at(m.list(), final(self).pos as int)
                    && old(self).pos < final(self).pos,
                Err(e) => attrs_at(old(self).input@, old(self).pos as int) == fails::<AttrList>(e),
            },
    {
        let ghost s = self.input@;
        let ghost p0 = self.pos as int;
        let mut attributes = AttrMap::new();
        loop
            invariant
                self.input@ == s,
                s == old(self).input@,
                p0 == old(self).pos,
                self.input == old(self).input,
                p0 <= self.pos <= s.len(),
                after(attributes.list(), attrs_at(s, self.pos as int)) == attrs_at(s, p0),
            decreases s.len() - self.pos,
        {
            let ghost cur = self.pos as int;
            self.consume_whitespace();
            if self.eof() {
                return Err(ParseError::UnexpectedEof);
            }
            if self.next_char() == '>' {
                self.pos = self.pos + 1;
                assert(attributes.list() + Seq::<(Seq<char>, Seq<char>)>::empty() =~= attributes.list());
                return Ok(attributes);
            }
            let ghost q = self.pos as int;
            let (name, value) = match self.parse_attr_value() {
                Ok(a) => a,
                Err(e) => return Err(e),
            };
            let ghost acc = attributes.list();
            attributes.insert(name, value);
            proof {
                let a = (name@, value@);
                match attrs_at(s, self.pos as int) {
                    Ok((rest, t)) => {
                        assert(acc + (seq![a] + rest) =~= acc.push(a) + rest);
                    },
                    Err(_) => {},
                }
            }
        }
    }

    fn parse_text(&mut self) -> (r: Node)
        requires
            old(self).pos < old(self).input@.len(),
            old(self).input@[old(self).pos as int] != '<',
        ensures
            final(self).input == old(self).input,
            final(self).pos <= final(self).input@.len(),
            old(self).pos < final(self).pos,
            text_at(old(self).input@, old(self).pos as int) == (r@, final(self).pos as int),
    {
        let t = self.consume_while(CharClass::Not('<'));
        proof {
            lemma_scan_end(old(self).input@, old(self).pos as int, CharClass::Not('<'));
        }
        text(t)
    }

    fn parse_comment(&mut self) -> (r: Result<Node, ParseError>)
        requires
            starts_at(old(self).input@, old(self).pos as int, comment_open()),
        ensures
            final(self).input == old(self).input,
            final(self).pos <= final(self).input@.len(),
            match r {
                Ok(n) => comment_at(old(self).input@, old(self).pos as int) == ok_at(n@, final(self).pos as int)
                    && old(self).pos < final(self).pos,
                Err(e) => comment_at(old(self).input@, old(self).pos as int) == fails::<DomNode>(e),
            },
    {
        proof {
            lemma_vec_len(&self.input);
        }
        let start = self.pos + 4;
        let close: Vec<char> = vec!['-', '-', '>'];
        assert(close@ =~= comment_close());
        let e = find(&self.input, start, &close);
        proof {
            lemma_find_from(self.input@, start as int, comment_close());
        }
        if e >= self.input.len() {
            return Err(ParseError::UnexpectedEof);
        }
        let t = string_of(&self.input, start, e);
        self.pos = e + 3;
        Ok(comment(t))
    }

    fn parse_element(&mut self, depth: usize) -> (r: Result<Node, ParseError>)
        requires
            old(self).pos < old(self).input@.len(),
        ensures
            final(self).input == old(self).input,
            final(self).pos <= final(self).input@.len(),
            match r {
                Ok(n) => element_at(old(self).input@, old(self).pos as int, depth as int) == ok_at(n@, final(self).pos as int)
                    && old(self).pos < final(self).pos,
                Err(e) => element_at(old(self).input@, old(self).pos as int, depth as int) == fails::<DomNode>(e),
            },
        decreases old(self).input@.len() - old(self).pos, 0int,
    {
        let ghost s = self.input@;
        proof {
            lemma_vec_len(&self.input);
        }
        if depth >= MAX_DEPTH {
            return Err(ParseError::NestingTooDeep);
        }
        self.pos = self.pos + 1;
        let tag_name = match self.parse_tag_name() {
            Ok(t) => t,
            Err(e) => return Err(e),
        };
        let attributes = match self.parse_attributes() {
            Ok(a) => a,
            Err(e) => return Err(e),
        };
        let children = match self.parse_nodes(depth + 1) {
            Ok(c) => c,
            Err(e) => return Err(e),
        };
        let t = self.pos;
        if t >= self.input.len() {
            return Err(ParseError::UnexpectedEof);
        }
        let e = scan(&self.input, t + 2, CharClass::Not('>'));
        proof {
            lemma_scan_end(s, t + 2, CharClass::Not('>'));
        }
        if e >= self.input.len() {
            return Err(ParseError::UnexpectedEof);
        }
        self.pos = e + 1;
        Ok(elem(tag_name, attributes, children))
    }

    fn parse_node(&mut self, depth: usize) -> (r: Result<Node, ParseError>)
        requires
            old(self).pos < old(self).input@.len(),
        ensures
            final(self).input == old(self).input,
            final(self).pos <= final(self).input@.len(),
            match r {
                Ok(n) => node_at(old(self).input@, old(self).pos as int, depth as int) == ok_at(n@, final(self).pos as int)
                    && old(self).pos < final(self).pos,
                Err(e) => node_at(old(self).input@, old(self).pos as int, depth as int) == fails::<DomNode>(e),
            },
        decreases old(self).input@.len() - old(self).pos, 1int,
    {
        let open: Vec<char> = vec!['<', '!', '-', '-'];
        assert(open@ =~= comment_open());
        if holds_at(&self.input, self.pos, &open) {
            self.parse_comment()
        } else if self.next_char() == '<' {
            self.parse_element(depth)
        } else {
            Ok(self.parse_text())
        }
    }

    fn parse_nodes(&mut self, depth: usize) -> (r: Result<Vec<Node>, ParseError>)
        requires
            old(self).pos <= old(self).input@.len(),
        ensures
            final(self).input == old(self).input,
            final(self).pos <= final(self).input@.len(),
            match r {
                Ok(ns) => nodes_at(old(self).input@, old(self).pos as int, depth as int)
                    == ok_at(nodes_view(ns@), final(self).pos as int)
                    && old(self).pos <= final(self).pos
                    && (final(self).pos >= final(self).input@.len()
                        || starts_at(final(self).input@, final(self).pos as int, close_lit())),
                Err(e) => nodes_at(old(self).input@, old(self).pos as int, depth as int) == fails::<Seq<DomNode>>(e),
            },
        decreases old(self).input@.len() - old(self).pos, 2int,
    {
        let ghost s = self.input@;
        let ghost p0 = self.pos as int;
        let close: Vec<char> = vec!['<', '/'];
        assert(close@ =~= close_lit());
        let mut nodes: Vec<Node> = Vec::new();
        loop
            invariant
                self.input@ == s,
                s == old(self).input@,
                p0 == old(self).pos,
                self.input == old(self).input,
                p0 <= self.pos <= s.len(),
                close@ == close_lit(),
                after(nodes_view(nodes@), nodes_at(s, self.pos as int, depth as int)) == nodes_at(s, p0, depth as int),
            decreases s.len() - self.pos,
        {
            let ghost cur = self.pos as int;
            self.consume_whitespace();
            if self.eof() || holds_at(&self.input, self.pos, &close) {
                assert(nodes_view(nodes@) + Seq::<DomNode>::empty() =~= nodes_view(nodes@));
                return Ok(nodes);
            }
            let n = match self.parse_node(depth) {
                Ok(n) => n,
                Err(e) => return Err(e),
            };
            let ghost acc = nodes_view(nodes@);
            let ghost before = nodes@;
            nodes.push(n);
            proof {
                assert(nodes@.drop_last() =~= before);
                match nodes_at(s, self.pos as int, depth as int) {
                    Ok((rest, t)) => {
                        assert(acc + (seq![n@] + rest) =~= acc.push(n@) + rest);
                    },
                    Err(_) => {},
                }
            }
        }
    }
}

/// Parses a markup text into its DOM tree.
pub fn parse(source: String) -> (r: Result<Node, ParseError>)
    ensures
        match r {
            Ok(n) => dom_of(source@) == Ok::<DomNode, ParseError>(n@),
            Err(e) => dom_of(source@) == Err::<DomNode, ParseError>(e),
        },
        // one top-level node comes back as it is
        match nodes_at(source@, 0, 0) {
            Ok((ns, t)) => t == source@.len() && ns.len() == 1 ==> r is Ok && r->Ok_0@ == ns[0],
            Err(_) => true,
        },
        // any other number is wrapped, in order, in an `html` element
        match nodes_at(source@, 0, 0) {
            Ok((ns, t)) => t == source@.len() && ns.len() != 1 ==> r is Ok && r->Ok_0@ == (DomNode {
                kind: DomKind::Element(html_tag(), Map::empty()),
                children: ns,
            }),
            Err(_) => true,
        },
{
    let input = chars_of(source.as_str());
    let mut parser = Parser { pos: 0, input };
    let mut nodes = match parser.parse_nodes(0) {
        Ok(ns) => ns,
        Err(e) => return Err(e),
    };
    if !parser.eof() {
        return Err(ParseError::UnexpectedChar {
            expected: Expected::EndOfInput,
            found: parser.next_char(),
            position: parser.pos,
        });
    }
    if nodes.len() == 1 {
        let ghost before = nodes@;
        let n = nodes.pop();
        match n {
            Some(n) => {
                proof {
                    assert(before.drop_last() =~= Seq::<Node>::empty());
                    assert(nodes_view(before.drop_last()) =~= Seq::<DomNode>::empty());
                    assert(nodes_view(before) == nodes_view(before.drop_last()).push(node_view(before.last())));
                    assert(n == before[0]);
                }
                Ok(n)
            },
            None => Err(ParseError::UnexpectedEof),
        }
    } else {
        let tag = String::from_str("html");
        proof {
            reveal_strlit("html");
            assert(tag@ =~= html_tag());
        }
        proof {
            lemma_nodes_view(nodes@);
        }
        Ok(elem(tag, AttrMap::new(), nodes))
    }
}

/// An attribute value may be quoted with `'` or with `"`: wherever the
/// attribute stands, the name and the value between the quotes come back,
/// the quotes themselves left out, and the closing quote is consumed.
pub proof fn lemma_attr_either_quote(
    before: Seq<char>,
    name: Seq<char>,
    quote: char,
    value: Seq<char>,
    rest: Seq<char>,
)
    requires
        name.len() > 0,
        forall|i: int| 0 <= i < name.len() ==> is_alnum(#[trigger] name[i]),
        is_quote(quote),
        forall|i: int| 0 <= i < value.len() ==> #[trigger] value[i] != quote,
    ensures
        attr_at(before + name + seq!['=', quote] + value + seq![quote] + rest, before.len() as int)
            == ok_at((name, value), before.len() + name.len() + value.len() + 3int),
{
    let s = before + name + seq!['=', quote] + value + seq![quote] + rest;
    let b = before.len() as int;
    let n = b + name.len();
    let e = n + 2 + value.len();
    assert forall|i: int| b <= i < n implies in_class(#[trigger] s[i], CharClass::Alnum) by {
        assert(s[i] == name[i - b]);
    }
    assert(s[n] == '=');
    lemma_scan_run(s, b, n, CharClass::Alnum);
    assert(s.subrange(b, n) =~= name);
    assert(s[n + 1] == quote);
    assert forall|i: int| n + 2 <= i < e implies in_class(#[trigger] s[i], CharClass::Not(quote)) by {
        assert(s[i] == value[i - n - 2]);
    }
    assert(s[e] == quote);
    lemma_scan_run(s, n + 2, e, CharClass::Not(quote));
    assert(s.subrange(n + 2, e) =~= value);
}

/// A parsed attribute value never holds the quote character that closed it.
pub proof fn lemma_attr_value_unquoted(s: Seq<char>, p: int)
    requires
        0 <= p <= s.len(),
    ensures
        attr_at(s, p) matches Ok(((_n, v), e)) ==> is_quote(s[e - 1])
            && s[e - 2 - v.len()] == s[e - 1]
            && v == s.subrange(e - 1 - v.len(), e - 1)
            && forall|i: int| 0 <= i < v.len() ==> #[trigger] v[i] != s[e - 1],
{
    lemma_scan_end(s, p, CharClass::Alnum);
    match attr_at(s, p) {
        Ok(((_n, v), e)) => {
            let q = scan_end(s, p, CharClass::Alnum);
            lemma_scan_end(s, q + 2, CharClass::Not(s[q + 1]));
            assert forall|i: int| 0 <= i < v.len() implies #[trigger] v[i] != s[e - 1] by {
                assert(v[i] == s[q + 2 + i]);
            }
        },
        Err(_) => {},
    }
}

/// An element whose start tag never gets its closing `>` is an
/// `UnexpectedEof`.
pub proof fn lemma_unclosed_tag(tag: Seq<char>)
    requires
        tag.len() > 0,
        forall|i: int| 0 <= i < tag.len() ==> is_alnum(#[trigger] tag[i]),
    ensures
        dom_of(seq!['<'] + tag) == Err::<DomNode, ParseError>(ParseError::UnexpectedEof),
{
    let s = seq!['<'] + tag;
    assert(s[0] == '<');
    lemma_scan_run(s, 0, 0, CharClass::Space);
    assert(s[1] == tag[0]);
    assert(!starts_at(s, 0, close_lit())) by {
        if starts_at(s, 0, close_lit()) {
            assert(s.subrange(0, 2)[1] == '/');
        }
    }
    assert(!starts_at(s, 0, comment_open())) by {
        if starts_at(s, 0, comment_open()) {
            assert(s.subrange(0, 4)[1] == '!');
        }
    }
    assert forall|i: int| 1 <= i < s.len() implies in_class(#[trigger] s[i], CharClass::Alnum) by {
        assert(s[i] == tag[i - 1]);
    }
    lemma_scan_run(s, 1, s.len() as int, CharClass::Alnum);
    lemma_scan_run(s, s.len() as int, s.len() as int, CharClass::Space);
    assert(attrs_at(s, s.len() as int) == fails::<AttrList>(ParseError::UnexpectedEof));
    assert(element_at(s, 0, 0) == fails::<DomNode>(ParseError::UnexpectedEof));
    assert(node_at(s, 0, 0) == fails::<DomNode>(ParseError::UnexpectedEof));
    assert(nodes_at(s, 0, 0) == fails::<Seq<DomNode>>(ParseError::UnexpectedEof));
}

/// A start tag whose attributes run to the end of the input, with no `>`,
/// is an `UnexpectedEof`.
#[verifier::rlimit(40)]
pub proof fn lemma_unclosed_tag_with_attr(tag: Seq<char>, name: Seq<char>, quote: char, value: Seq<char>)
    requires
        tag.len() > 0,
        forall|i: int| 0 <= i < tag.len() ==> is_alnum(#[trigger] tag[i]),
        name.len() > 0,
        forall|i: int| 0 <= i < name.len() ==> is_alnum(#[trigger] name[i]),
        is_quote(quote),
        forall|i: int| 0 <= i < value.len() ==> #[trigger] value[i] != quote,
    ensures
        dom_of(seq!['<'] + tag + seq![' '] + name + seq!['=', quote] + value + seq![quote])
            == Err::<DomNode, ParseError>(ParseError::UnexpectedEof),
{
    let before = seq!['<'] + tag + seq![' '];
    let s = seq!['<'] + tag + seq![' '] + name + seq!['=', quote] + value + seq![quote];
    let t = tag.len() as int;
    assert(s =~= before + name + seq!['=', quote] + value + seq![quote] + Seq::<char>::empty());
    lemma_attr_either_quote(before, name, quote, value, Seq::empty());
    assert(attr_at(s, t + 2) == ok_at((name, value), s.len() as int));
    assert(s[0] == '<');
    lemma_scan_run(s, 0, 0, CharClass::Space);
    assert(!starts_at(s, 0, close_lit())) by {
        if starts_at(s, 0, close_lit()) {
            assert(s.subrange(0, 2)[1] == '/');
        }
    }
    assert(!starts_at(s, 0, comment_open())) by {
        if starts_at(s, 0, comment_open()) {
            assert(s.subrange(0, 4)[1] == '!');
        }
    }
    assert forall|i: int| 1 <= i < t + 1 implies in_class(#[trigger] s[i], CharClass::Alnum) by {
        assert(s[i] == tag[i - 1]);
    }
    assert(s[t + 1] == ' ');
    lemma_scan_run(s, 1, t + 1, CharClass::Alnum);
    assert(s.subrange(1, t + 1) =~= tag);
    assert(!is_space(s[t + 2])) by {
        assert(s[t + 2] == name[0]);
    }
    lemma_scan_run(s, t + 1, t + 2, CharClass::Space);
    assert(s[t + 2] != '>');
    lemma_scan_run(s, s.len() as int, s.len() as int, CharClass::Space);
    assert(attrs_at(s, s.len() as int) == fails::<AttrList>(ParseError::UnexpectedEof));
    assert(attrs_at(s, t + 1) == fails::<AttrList>(ParseError::UnexpectedEof));
    assert(element_at(s, 0, 0) == fails::<DomNode>(ParseError::UnexpectedEof));
    assert(node_at(s, 0, 0) == fails::<DomNode>(ParseError::UnexpectedEof));
    assert(nodes_at(s, 0, 0) == fails::<Seq<DomNode>>(ParseError::UnexpectedEof));
}

/// An end tag that never gets its closing `>` is an `UnexpectedEof`.
pub proof fn lemma_unclosed_end_tag(tag: Seq<char>, rest: Seq<char>)
    requires
        tag.len() > 0,
        forall|i: int| 0 <= i < tag.len() ==> is_alnum(#[trigger] tag[i]),
        forall|i: int| 0 <= i < rest.len() ==> #[trigger] rest[i] != '>',
    ensures
        dom_of(seq!['<'] + tag + seq!['>', '<', '/'] + rest)
            == Err::<DomNode, ParseError>(ParseError::UnexpectedEof),
{
    let s = seq!['<'] + tag + seq!['>', '<', '/'] + rest;
    let t = tag.len() as int;
    assert(s[0] == '<');
    lemma_scan_run(s, 0, 0, CharClass::Space);
    assert(!starts_at(s, 0, close_lit())) by {
        if starts_at(s, 0, close_lit()) {
            assert(s.subrange(0, 2)[1] == '/');
        }
    }
    assert(!starts_at(s, 0, comment_open())) by {
        if starts_at(s, 0, comment_open()) {
            assert(s.subrange(0, 4)[1] == '!');
        }
    }
    assert forall|i: int| 1 <= i < t + 1 implies in_class(#[trigger] s[i], CharClass::Alnum) by {
        assert(s[i] == tag[i - 1]);
    }
    assert(s[t + 1] == '>');
    lemma_scan_run(s, 1, t + 1, CharClass::Alnum);
    assert(s.subrange(1, t + 1) =~= tag);
    lemma_scan_run(s, t + 1, t + 1, CharClass::Space);
    assert(attrs_at(s, t + 1) == ok_at(Seq::<(Seq<char>, Seq<char>)>::empty(), t + 2));
    assert(s[t + 2] == '<');
    lemma_scan_run(s, t + 2, t + 2, CharClass::Space);
    assert(starts_at(s, t + 2, close_lit())) by {
        assert(s.subrange(t + 2, t + 4) =~= close_lit());
    }
    assert(nodes_at(s, t + 2, 1) == ok_at(Seq::<DomNode>::empty(), t + 2));
    assert forall|i: int| t + 4 <= i < s.len() implies in_class(#[trigger] s[i], CharClass::Not('>')) by {
        assert(s[i] == rest[i - t - 4]);
    }
    lemma_scan_run(s, t + 4, s.len() as int, CharClass::Not('>'));
    assert(element_at(s, 0, 0) == fails::<DomNode>(ParseError::UnexpectedEof));
    assert(node_at(s, 0, 0) == fails::<DomNode>(ParseError::UnexpectedEof));
    assert(nodes_at(s, 0, 0) == fails::<Seq<DomNode>>(ParseError::UnexpectedEof));
}

} // verus!
