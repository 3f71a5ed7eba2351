//! The style resolver: attaches the declarations of matching rules to each
//! DOM node.
use vstd::prelude::*;
use crate::css::{
    Selector, SelectorView, StyleSheet, Rule, Value, ValueView, PropertyView, RuleView,
    rule_view, property_view,
};
use crate::html::{DomKind, DomNode, ElementData, Node, NodeType, nodes_view};
use crate::text::{chars_of, holds_at, is_space, space, starts_at};

verus! {

/// Whether the word `c` stands at `i` in the whitespace-separated list `v`.
pub open spec fn word_at(v: Seq<char>, c: Seq<char>, i: int) -> bool {
    0 <= i && i + c.len() <= v.len() && starts_at(v, i, c)
        && (i == 0 || is_space(v[i - 1]))
        && (i + c.len() == v.len() || is_space(v[i + c.len()]))
}

/// Whether `c` is one of the words of `v` split at whitespace.
pub open spec fn has_word(v: Seq<char>, c: Seq<char>) -> bool {
    c.len() > 0 && (forall|j: int| 0 <= j < c.len() ==> !is_space(#[trigger] c[j]))
        && exists|i: int| word_at(v, c, i)
}

pub open spec fn id_key() -> Seq<char> {
    seq!['i', 'd']
}

pub open spec fn class_key() -> Seq<char> {
    seq!['c', 'l', 'a', 's', 's']
}

/// The value of the `class` attribute, empty when there is none.
pub open spec fn class_value(attrs: Map<Seq<char>, Seq<char>>) -> Seq<char> {
    if attrs.contains_key(class_key()) {
        attrs[class_key()]
    } else {
        Seq::empty()
    }
}

/// Whether an element with this tag and these attributes is selected by `sel`:
/// each component that is present must hold.
pub open spec fn selects(sel: SelectorView, tag: Seq<char>, attrs: Map<Seq<char>, Seq<char>>) -> bool {
    &&& (sel.tag matches Some(t) ==> t == tag)
    &&& (sel.id matches Some(id) ==> attrs.contains_key(id_key()) && attrs[id_key()] == id)
    &&& forall|k: int| 0 <= k < sel.classes.len() ==> has_word(class_value(attrs), #[trigger] sel.classes[k])
}

/// The rules of `rules` that select the element, in source order.
pub open spec fn matching(rules: Seq<RuleView>, tag: Seq<char>, attrs: Map<Seq<char>, Seq<char>>) -> Seq<RuleView>
    decreases rules.len(),
{
    if rules.len() == 0 {
        Seq::empty()
    } else if selects(rules.last().selector, tag, attrs) {
        matching(rules.drop_last(), tag, attrs).push(rules.last())
    } else {
        matching(rules.drop_last(), tag, attrs)
    }
}

/// All declarations of `rules`, rule after rule.
pub open spec fn declarations_of(rules: Seq<RuleView>) -> Seq<PropertyView>
    decreases rules.len(),
{
    if rules.len() == 0 {
        Seq::empty()
    } else {
        declarations_of(rules.drop_last()) + rules.last().declarations
    }
}

/// The map that a list of declarations denotes: the last one for a name wins.
pub open spec fn cascade(ds: Seq<PropertyView>) -> Map<Seq<char>, ValueView>
    decreases ds.len(),
{
    if ds.len() == 0 {
        Map::empty()
    } else {
        cascade(ds.drop_last()).insert(ds.last().0, ds.last().1)
    }
}

/// The specified values of a node: the cascade of the matching rules for an
/// element, nothing for text and comments.
pub open spec fn values_for(kind: DomKind, rules: Seq<RuleView>) -> Map<Seq<char>, ValueView> {
    match kind {
        DomKind::Element(tag, attrs) => cascade(declarations_of(matching(rules, tag, attrs))),
        _ => Map::empty(),
    }
}

/// Property values by name. A later entry for a name shadows earlier ones.
pub struct PropertyMap {
    entries: Vec<(String, Value)>,
}

pub open spec fn entry_view(e: (String, Value)) -> PropertyView {
    (e.0@, e.1.view())
}

impl PropertyMap {
    pub closed spec fn list(&self) -> Seq<PropertyView> {
        self.entries@.map_values(|e: (String, Value)| entry_view(e))
    }

    pub open spec fn view(&self) -> Map<Seq<char>, ValueView> {
        cascade(self.list())
    }

    pub fn new() -> (r: PropertyMap)
        ensures
            r.list() == Seq::<PropertyView>::empty(),
            r@ == Map::<Seq<char>, ValueView>::empty(),
    {
        let r = PropertyMap { entries: Vec::new() };
        assert(r.list() =~= Seq::empty());
        r
    }

    /// Sets `name` to `value`, replacing any earlier value.
    pub fn insert(&mut self, name: String, value: Value)
        ensures
            final(self).list() == old(self).list().push((name@, value.view())),
            final(self)@ == old(self)@.insert(name@, value.view()),
    {
        let ghost v = value.view();
        self.entries.push((name, value));
        assert(self.list() =~= old(self).list().push((name@, v)));
        assert(self.list().drop_last() =~= old(self).list());
    }

    /// The value of `name`, if it is set.
    pub fn get(&self, name: &String) -> (r: Option<&Value>)
        ensures
            r matches Some(v) ==> self@.contains_key(name@) && v.view() == self@[name@],
            r is None ==> !self@.contains_key(name@),
    {
        let ghost l = self.list();
        let mut i = self.entries.len();
        assert(l.subrange(0, i as int) =~= l);
        while i > 0
            invariant
                i <= self.entries@.len(),
                l.len() == self.entries@.len(),
                l == self.list(),
                cascade(l.subrange(0, i as int)).contains_key(name@) == self@.contains_key(name@),
                cascade(l.subrange(0, i as int)).contains_key(name@)
                    ==> cascade(l.subrange(0, i as int))[name@] == self@[name@],
            decreases i,
        {
            let k = i - 1;
            assert(l.subrange(0, i as int).drop_last() =~= l.subrange(0, k as int));
            if self.entries[k].0 == *name {
                return Some(&self.entries[k].1);
            }
            i = k;
        }
        assert(l.subrange(0, 0) =~= Seq::<PropertyView>::empty());
        None
    }
}

impl Value {
    /// A copy of this value.
    pub fn duplicate(&self) -> (r: Value)
        ensures
            r.view() == self.view(),
    {
        match self {
            Value::Keyword(s) => Value::Keyword(s.clone()),
            Value::Numeric(d, u) => Value::Numeric(*d, *u),
            Value::ColorValue(c) => Value::ColorValue(*c),
        }
    }
}

fn word_at_exec(v: &Vec<char>, c: &Vec<char>, i: usize) -> (r: bool)
    requires
        i + c@.len() <= v@.len(),
    ensures
        r == word_at(v@, c@, i as int),
{
    proof {
        crate::text::lemma_vec_len(v);
    }
    let end = i + c.len();
    holds_at(v, i, c) && (i == 0 || space(v[i - 1])) && (end == v.len() || space(v[end]))
}

fn has_word_exec(v: &Vec<char>, c: &Vec<char>) -> (r: bool)
    ensures
        r == has_word(v@, c@),
{
    if c.len() == 0 || c.len() > v.len() {
        return false;
    }
    let mut j: usize = 0;
    while j < c.len()
        invariant
            j <= c@.len(),
            forall|k: int| 0 <= k < j ==> !is_space(#[trigger] c@[k]),
        decreases c@.len() - j,
    {
        if space(c[j]) {
            return false;
        }
        j = j + 1;
    }
    proof {
        crate::text::lemma_vec_len(v);
    }
    let last = v.len() - c.len();
    let mut i: usize = 0;
    while i <= last
        invariant
            last + c@.len() == v@.len(),
            v@.len() <= usize::MAX,
            c@.len() > 0,
            i <= last + 1,
            forall|k: int| 0 <= k < c@.len() ==> !is_space(#[trigger] c@[k]),
            forall|k: int| 0 <= k < i ==> !word_at(v@, c@, k),
        decreases last + 1 - i,
    {
        if word_at_exec(v, c, i) {
            return true;
        }
        i = i + 1;
    }
    assert forall|k: int| !word_at(v@, c@, k) by {
        if 0 <= k && k + c@.len() <= v@.len() {
            assert(k <= last);
        }
    }
    false
}

/// Whether `selector` selects the element: its tag, its `id` and its
/// classes all agree with what the selector names.
pub fn matches_selector(elem: &ElementData, selector: &Selector) -> (r: bool)
    ensures
        r == selects(selector.view(), elem.tag_name@, elem.attributes@),
{
    match &selector.tag_name {
        Some(t) => {
            if *t != elem.tag_name {
                return false;
            }
        },
        None => {},
    }
    match &selector.id {
        Some(id) => {
            let key = String::from_str("id");
            proof {
                reveal_strlit("id");
                assert(key@ =~= id_key());
            }
            match elem.attributes.get(&key) {
                Some(v) => {
                    if *v != *id {
                        return false;
                    }
                },
                None => return false,
            }
        },
        None => {},
    }
    let key = String::from_str("class");
    proof {
        reveal_strlit("class");
        assert(key@ =~= class_key());
    }
    let class_list: Vec<char> = match elem.attributes.get(&key) {
        Some(v) => chars_of(v.as_str()),
        None => Vec::new(),
    };
    assert(class_list@ =~= class_value(elem.attributes@));
    let ghost classes = selector.view().classes;
    let mut k: usize = 0;
    while k < selector.class.len()
        invariant
            k <= selector.class@.len(),
            classes == selector.view().classes,
            classes.len() == selector.class@.len(),
            class_list@ == class_value(elem.attributes@),
            forall|j: int| 0 <= j < k ==> has_word(class_value(elem.attributes@), #[trigger] classes[j]),
        decreases selector.class@.len() - k,
    {
        let c = chars_of(selector.class[k].as_str());
        assert(classes[k as int] == selector.class@[k as int]@);
        if !has_word_exec(&class_list, &c) {
            return false;
        }
        k = k + 1;
    }
    true
}

/// The rules of `stylesheet` that select `elem`, in source order. The
/// stylesheet is only read: it can be queried again for every element.
pub fn matching_rules<'a>(elem: &ElementData, stylesheet: &'a StyleSheet) -> (r: Vec<&'a Rule>)
    ensures
        r@.map_values(|x: &Rule| rule_view(*x)) == matching(stylesheet.view(), elem.tag_name@, elem.attributes@),
{
    let ghost all = stylesheet.view();
    let mut out: Vec<&'a Rule> = Vec::new();
    let mut i: usize = 0;
    assert(all.subrange(0, 0) =~= Seq::<RuleView>::empty());
    assert(out@.map_values(|x: &Rule| rule_view(*x)) =~= Seq::<RuleView>::empty());
    while i < stylesheet.rules.len()
        invariant
            i <= stylesheet.rules@.len(),
            all == stylesheet.view(),
            all.len() == stylesheet.rules@.len(),
            out@.map_values(|x: &Rule| rule_view(*x))
                == matching(all.subrange(0, i as int), elem.tag_name@, elem.attributes@),
        decreases stylesheet.rules@.len() - i,
    {
        let rule = &stylesheet.rules[i];
        assert(all.subrange(0, i + 1).drop_last() =~= all.subrange(0, i as int));
        assert(all.subrange(0, i + 1).last() == rule_view(*rule));
        let ghost before = out@;
        if matches_selector(elem, &rule.selector) {
            out.push(rule);
            assert(out@.map_values(|x: &Rule| rule_view(*x))
                =~= before.map_values(|x: &Rule| rule_view(*x)).push(rule_view(*rule)));
        }
        i = i + 1;
    }
    assert(all.subrange(0, i as int) =~= all);
    out
}

/// The cascade over the matching rules: for each property name, the value
/// of its last declaration in the last matching rule that sets it.
pub fn specified_values(elem: &ElementData, stylesheet: &StyleSheet) -> (r: PropertyMap)
    ensures
        r@ == cascade(declarations_of(matching(stylesheet.view(), elem.tag_name@, elem.attributes@))),
        r.list() == declarations_of(matching(stylesheet.view(), elem.tag_name@, elem.attributes@)),
{
    let rules = matching_rules(elem, stylesheet);
    let ghost rv = rules@.map_values(|x: &Rule| rule_view(*x));
    let mut values = PropertyMap::new();
    let mut i: usize = 0;
    assert(rv.subrange(0, 0) =~= Seq::<RuleView>::empty());
    while i < rules.len()
        invariant
            i <= rules@.len(),
            rv == rules@.map_values(|x: &Rule| rule_view(*x)),
            values.list() == declarations_of(rv.subrange(0, i as int)),
        decreases rules@.len() - i,
    {
        let rule = rules[i];
        let ghost ds = rule.declarations@.map_values(|p: crate::css::Property| property_view(p));
        let ghost base = values.list();
        let mut j: usize = 0;
        assert(ds.subrange(0, 0) =~= Seq::<PropertyView>::empty());
        assert(base + ds.subrange(0, 0) =~= base);
        while j < rule.declarations.len()
            invariant
                j <= rule.declarations@.len(),
                ds == rule.declarations@.map_values(|p: crate::css::Property| property_view(p)),
                values.list() == base + ds.subrange(0, j as int),
            decreases rule.declarations@.len() - j,
        {
            let d = &rule.declarations[j];
            values.insert(d.name.clone(), d.value.duplicate());
            assert(base + ds.subrange(0, j + 1) =~= (base + ds.subrange(0, j as int)).push(ds[j as int]));
            j = j + 1;
        }
        assert(ds.subrange(0, j as int) =~= ds);
        assert(rv.subrange(0, i + 1).drop_last() =~= rv.subrange(0, i as int));
        i = i + 1;
    }
    assert(rv.subrange(0, i as int) =~= rv);
    values
}

/// A DOM node with the values specified for it, and its children styled
/// in the same order.
pub struct StyledNode<'a> {
    pub node: &'a Node,
    pub specified_values: PropertyMap,
    pub children: Vec<StyledNode<'a>>,
}

pub struct StyledView {
    pub node: DomNode,
    pub values: Map<Seq<char>, ValueView>,
    pub children: Seq<StyledView>,
}

pub open spec fn styled_views(ns: Seq<StyledNode>) -> Seq<StyledView>
    decreases ns,
{
    if ns.len() == 0 {
        Seq::empty()
    } else {
        styled_views(ns.drop_last()).push(styled_view(ns.last()))
    }
}

pub open spec fn styled_view(n: StyledNode) -> StyledView
    decreases n,
{
    StyledView { node: n.node@, values: n.specified_values@, children: styled_views(n.children@) }
}

/// The styled tree of a DOM subtree.
pub open spec fn style_of(n: DomNode, rules: Seq<RuleView>) -> StyledView
    decreases n,
{
    StyledView { node: n, values: values_for(n.kind, rules), children: styles_of(n.children, rules) }
}

pub open spec fn styles_of(ns: Seq<DomNode>, rules: Seq<RuleView>) -> Seq<StyledView>
    decreases ns,
{
    if ns.len() == 0 {
        Seq::empty()
    } else {
        styles_of(ns.drop_last(), rules).push(style_of(ns.last(), rules))
    }
}

/// Styles `root` and its subtree; neither the tree nor the stylesheet changes.
pub fn style_tree<'a>(root: &'a Node, stylesheet: &StyleSheet) -> (r: StyledNode<'a>)
    ensures
        r.node == root,
        styled_view(r) == style_of(root@, stylesheet.view()),
    decreases root,
{
    let specified_values = match &root.node_type {
        NodeType::Element(e) => specified_values(e, stylesheet),
        _ => PropertyMap::new(),
    };
    let mut children: Vec<StyledNode<'a>> = Vec::new();
    let mut i: usize = 0;
    assert(root.children@.subrange(0, 0) =~= Seq::<Node>::empty());
    assert(children@ =~= Seq::<StyledNode>::empty());
    while i < root.children.len()
        invariant
            i <= root.children@.len(),
            styled_views(children@) == styles_of(nodes_view(root.children@.subrange(0, i as int)), stylesheet.view()),
        decreases root.children@.len() - i,
    {
        let ghost before = children@;
        let child = style_tree(&root.children[i], stylesheet);
        children.push(child);
        proof {
            let sub = root.children@.subrange(0, i + 1);
            assert(sub.drop_last() =~= root.children@.subrange(0, i as int));
            assert(children@.drop_last() =~= before);
            assert(nodes_view(sub).drop_last() == nodes_view(root.children@.subrange(0, i as int)));
        }
        i = i + 1;
    }
    assert(root.children@.subrange(0, i as int) =~= root.children@);
    StyledNode { node: root, specified_values, children }
}

/// How a node takes part in layout.
#[derive(Clone, Copy, PartialEq, Eq, Structural, Debug)]
pub enum Display {
    Block,
    Inline,
    /// `display: none`: no box at all.
    Hidden,
}

pub open spec fn display_key() -> Seq<char> {
    seq!['d', 'i', 's', 'p', 'l', 'a', 'y']
}

/// The `display` of a node: `block`, `inline` or `none` when its values say
/// so as a keyword, and otherwise block for an element, inline for text and
/// comments.
pub open spec fn display_of(values: Map<Seq<char>, ValueView>, element: bool) -> Display {
    if values.contains_key(display_key()) && values[display_key()] == ValueView::Keyword(seq!['b', 'l', 'o', 'c', 'k']) {
        Display::Block
    } else if values.contains_key(display_key()) && values[display_key()] == ValueView::Keyword(seq!['i', 'n', 'l', 'i', 'n', 'e']) {
        Display::Inline
    } else if values.contains_key(display_key()) && values[display_key()] == ValueView::Keyword(seq!['n', 'o', 'n', 'e']) {
        Display::Hidden
    } else if element {
        Display::Block
    } else {
        Display::Inline
    }
}

pub open spec fn display_of_view(v: StyledView) -> Display {
    display_of(v.values, v.node.kind is Element)
}

impl<'a> StyledNode<'a> {
    pub fn display(&self) -> (r: Display)
        ensures
            r == display_of_view(styled_view(*self)),
    {
        let key = String::from_str("display");
        let block = String::from_str("block");
        let inline = String::from_str("inline");
        let none = String::from_str("none");
        proof {
            reveal_strlit("display");
            reveal_strlit("block");
            reveal_strlit("inline");
            reveal_strlit("none");
            assert(key@ =~= display_key());
            assert(block@ =~= seq!['b', 'l', 'o', 'c', 'k']);
            assert(inline@ =~= seq!['i', 'n', 'l', 'i', 'n', 'e']);
            assert(none@ =~= seq!['n', 'o', 'n', 'e']);
        }
        let element = match &self.node.node_type {
            NodeType::Element(_) => true,
            _ => false,
        };
        assert(element == (styled_view(*self).node.kind is Element));
        match self.specified_values.get(&key) {
            Some(Value::Keyword(k)) => {
                if *k == block {
                    return Display::Block;
                } else if *k == inline {
                    return Display::Inline;
                } else if *k == none {
                    return Display::Hidden;
                }
            },
            _ => {},
        }
        if element {
            Display::Block
        } else {
            Display::Inline
        }
    }
}

/// A selector with a tag, an id and a class selects an element exactly when
/// all three agree with it; any one that differs makes the match fail.
pub proof fn lemma_selects_conjunctive(
    t: Seq<char>,
    id: Seq<char>,
    class: Seq<char>,
    tag: Seq<char>,
    attrs: Map<Seq<char>, Seq<char>>,
)
    ensures
        selects(SelectorView { tag: Some(t), id: Some(id), classes: seq![class] }, tag, attrs) <==> {
            &&& t == tag
            &&& attrs.contains_key(id_key()) && attrs[id_key()] == id
            &&& has_word(class_value(attrs), class)
        },
{
    let sel = SelectorView { tag: Some(t), id: Some(id), classes: seq![class] };
    assert(sel.classes[0] == class);
}

/// The last declaration of `name` in a list decides its value.
pub proof fn lemma_cascade_last(ds: Seq<PropertyView>, name: Seq<char>, k: int)
    requires
        0 <= k < ds.len(),
        ds[k].0 == name,
        forall|j: int| k < j < ds.len() ==> (#[trigger] ds[j]).0 != name,
    ensures
        cascade(ds).contains_key(name),
        cascade(ds)[name] == ds[k].1,
    decreases ds.len(),
{
    if k < ds.len() - 1 {
        lemma_cascade_last(ds.drop_last(), name, k);
        assert(ds.drop_last()[k] == ds[k]);
    }
}

/// Of two matching rules that both set `name`, the later one's value is the
/// one the element gets (its last declaration of `name`, at `k`).
pub proof fn lemma_later_rule_wins(
    first: RuleView,
    second: RuleView,
    tag: Seq<char>,
    attrs: Map<Seq<char>, Seq<char>>,
    name: Seq<char>,
    k: int,
)
    requires
        selects(first.selector, tag, attrs),
        selects(second.selector, tag, attrs),
        exists|j: int| 0 <= j < first.declarations.len() && (#[trigger] first.declarations[j]).0 == name,
        0 <= k < second.declarations.len(),
        second.declarations[k].0 == name,
        forall|j: int| k < j < second.declarations.len() ==> (#[trigger] second.declarations[j]).0 != name,
    ensures
        values_for(DomKind::Element(tag, attrs), seq![first, second]).contains_key(name),
        values_for(DomKind::Element(tag, attrs), seq![first, second])[name] == second.declarations[k].1,
{
    let rules = seq![first, second];
    assert(rules.drop_last() =~= seq![first]);
    assert(seq![first].drop_last() =~= Seq::<RuleView>::empty());
    assert(rules.last() == second);
    assert(seq![first].last() == first);
    assert(matching(Seq::<RuleView>::empty(), tag, attrs) == Seq::<RuleView>::empty());
    assert(matching(seq![first], tag, attrs) =~= seq![first]);
    assert(matching(rules, tag, attrs) =~= seq![first, second]);
    let ds = declarations_of(rules);
    assert(declarations_of(Seq::<RuleView>::empty()) == Seq::<PropertyView>::empty());
    assert(declarations_of(seq![first]) =~= first.declarations);
    assert(ds =~= first.declarations + second.declarations);
    let n = first.declarations.len() as int;
    assert forall|j: int| n + k < j < ds.len() implies (#[trigger] ds[j]).0 != name by {
        assert(ds[j] == second.declarations[j - n]);
    }
    lemma_cascade_last(ds, name, n + k);
}

} // verus!
