//! The stylesheet parser: text to an ordered list of rules.
use vstd::prelude::*;
use crate::error::{Expected, ParseError, ok_at, fails};
use crate::text::{
    lemma_vec_len, CharClass, in_class, is_digit, is_space, scan_end, lemma_scan_end, starts_at,
    scan, holds_at, string_of, chars_of,
};
use crate::html::{fail_at, after};

verus! {

pub struct StyleSheet {
    pub rules: Vec<Rule>,
}

pub struct Rule {
    pub selector: Selector,
    pub declarations: Vec<Property>,
}

/// A simple selector. An absent tag or id, and an empty class list, match
/// anything: the selector with no component at all is the universal one.
pub struct Selector {
    pub tag_name: Option<String>,
    pub id: Option<String>,
    pub class: Vec<String>,
}

pub struct Property {
    pub name: String,
    pub value: Value,
}

pub enum Value {
    Keyword(String),
    Numeric(Decimal, Unit),
    ColorValue(Color),
}

#[derive(Clone, Copy, PartialEq, Eq, Structural, Debug)]
pub enum Unit {
    Px,
}

#[derive(Clone, Copy, PartialEq, Eq, Structural, Debug)]
pub struct Color {
    pub r: u8,
    pub g: u8,
    pub b: u8,
    pub a: u8,
}

/// The decimal number `mantissa / 10^scale`, exactly as it was written.
#[derive(Clone, Copy, PartialEq, Eq, Structural, Debug)]
pub struct Decimal {
    pub mantissa: u64,
    pub scale: usize,
}

pub struct SelectorView {
    pub tag: Option<Seq<char>>,
    pub id: Option<Seq<char>>,
    pub classes: Seq<Seq<char>>,
}

pub enum ValueView {
    Keyword(Seq<char>),
    Numeric(Decimal, Unit),
    Color(Color),
}

pub type PropertyView = (Seq<char>, ValueView);

pub struct RuleView {
    pub selector: SelectorView,
    pub declarations: Seq<PropertyView>,
}

pub open spec fn opt_view(o: Option<String>) -> Option<Seq<char>> {
    match o {
        Some(s) => Some(s@),
        None => None,
    }
}

pub open spec fn string_view(s: String) -> Seq<char> {
    s@
}

impl Selector {
    pub open spec fn view(&self) -> SelectorView {
        SelectorView {
            tag: opt_view(self.tag_name),
            id: opt_view(self.id),
            classes: self.class@.map_values(|c: String| string_view(c)),
        }
    }
}

impl Value {
    pub open spec fn view(&self) -> ValueView {
        match self {
            Value::Keyword(s) => ValueView::Keyword(s@),
            Value::Numeric(d, u) => ValueView::Numeric(*d, *u),
            Value::ColorValue(c) => ValueView::Color(*c),
        }
    }
}

pub open spec fn property_view(p: Property) -> PropertyView {
    (p.name@, p.value.view())
}

pub open spec fn rule_view(r: Rule) -> RuleView {
    RuleView {
        selector: r.selector.view(),
        declarations: r.declarations@.map_values(|p: Property| property_view(p)),
    }
}

impl StyleSheet {
    pub open spec fn view(&self) -> Seq<RuleView> {
        self.rules@.map_values(|r: Rule| rule_view(r))
    }
}

pub open spec fn digit_val(c: char) -> int {
    c as int - '0' as int
}

/// The digits of `t` read as one integer, a `.` among them skipped.
pub open spec fn decimal_value(t: Seq<char>) -> int
    decreases t.len(),
{
    if t.len() == 0 {
        0
    } else if t.last() == '.' {
        decimal_value(t.drop_last())
    } else {
        decimal_value(t.drop_last()) * 10 + digit_val(t.last())
    }
}

pub open spec fn dot_count(t: Seq<char>) -> int
    decreases t.len(),
{
    if t.len() == 0 {
        0
    } else {
        dot_count(t.drop_last()) + if t.last() == '.' { 1int } else { 0int }
    }
}

/// The number of digits after the `.` of `t`, or 0 when there is none.
pub open spec fn frac_len(t: Seq<char>) -> int
    decreases t.len(),
{
    if t.len() == 0 || t.last() == '.' {
        0
    } else if dot_count(t.drop_last()) > 0 {
        frac_len(t.drop_last()) + 1
    } else {
        0
    }
}

/// `Identifier := [A-Za-z0-9_-]+`.
pub open spec fn ident_at(s: Seq<char>, p: int) -> Result<(Seq<char>, int), ParseError> {
    let e = scan_end(s, p, CharClass::Ident);
    if e == p {
        Err(fail_at(s, p, Expected::Name))
    } else {
        Ok((s.subrange(p, e), e))
    }
}

/// Selector components from `p` up to the whitespace (if any) just before
/// `{`, added to `sel`. Whitespace between components is skipped.
pub open spec fn selector_at(s: Seq<char>, p: int, sel: SelectorView) -> Result<(SelectorView, int), ParseError>
    decreases s.len() - p,
{
    if p < 0 || p >= s.len() {
        Err(ParseError::UnexpectedEof)
    } else if s[p] == '{' {
        Ok((sel, p))
    } else if is_space(s[p]) {
        let w = scan_end(s, p, CharClass::Space);
        proof {
            lemma_scan_end(s, p, CharClass::Space);
        }
        if w >= s.len() {
            Err(ParseError::UnexpectedEof)
        } else if s[w] == '{' {
            Ok((sel, p))
        } else {
            selector_at(s, w, sel)
        }
    } else if s[p] == '#' || s[p] == '.' || in_class(s[p], CharClass::Ident) {
        let bare = s[p] != '#' && s[p] != '.';
        if bare && sel.tag is Some {
            // a second bare identifier names a second tag
            Err(ParseError::InvalidSelector)
        } else {
            match ident_at(s, if bare { p } else { p + 1 }) {
                Err(e) => Err(e),
                Ok((name, e)) => {
                    // never taken: an identifier is at least one character long
                    if e <= p || e > s.len() {
                        Err(ParseError::UnexpectedEof)
                    } else if s[p] == '#' {
                        selector_at(s, e, SelectorView { id: Some(name), ..sel })
                    } else if s[p] == '.' {
                        selector_at(s, e, SelectorView { classes: sel.classes.push(name), ..sel })
                    } else {
                        selector_at(s, e, SelectorView { tag: Some(name), ..sel })
                    }
                },
            }
        }
    } else {
        Err(fail_at(s, p, Expected::Name))
    }
}

pub open spec fn empty_selector() -> SelectorView {
    SelectorView { tag: None, id: None, classes: Seq::empty() }
}

pub open spec fn px_lit() -> Seq<char> {
    seq!['p', 'x']
}

pub open spec fn rgba_lit() -> Seq<char> {
    seq!['r', 'g', 'b', 'a', '(']
}

/// A run of digits with at most one `.`, then an optional `px`.
pub open spec fn number_at(s: Seq<char>, p: int) -> Result<(ValueView, int), ParseError> {
    let e = scan_end(s, p, CharClass::Number);
    let t = s.subrange(p, e);
    if dot_count(t) > 1 || decimal_value(t) > u64::MAX {
        Err(ParseError::InvalidNumericLiteral)
    } else {
        let d = Decimal { mantissa: decimal_value(t) as u64, scale: frac_len(t) as usize };
        Ok((ValueView::Numeric(d, Unit::Px), if starts_at(s, e, px_lit()) { e + 2 } else { e }))
    }
}

/// One color component: any run of non-digits, then a run of digits worth
/// at most 255.
pub open spec fn component_at(s: Seq<char>, p: int) -> Result<(u8, int), ParseError> {
    let q = scan_end(s, p, CharClass::NonDigit);
    if q >= s.len() {
        Err(ParseError::UnexpectedEof)
    } else {
        let e = scan_end(s, q, CharClass::Digit);
        let v = decimal_value(s.subrange(q, e));
        if v > 255 {
            Err(ParseError::InvalidColorComponent)
        } else {
            Ok((v as u8, e))
        }
    }
}

/// `rgba(` at `p`, four components, then the separators up to `;`.
pub open spec fn color_at(s: Seq<char>, p: int) -> Result<(ValueView, int), ParseError> {
    match component_at(s, p + 5) {
        Err(e) => Err(e),
        Ok((r, p1)) => match component_at(s, p1) {
            Err(e) => Err(e),
            Ok((g, p2)) => match component_at(s, p2) {
                Err(e) => Err(e),
                Ok((b, p3)) => match component_at(s, p3) {
                    Err(e) => Err(e),
                    Ok((a, p4)) => Ok((
                        ValueView::Color(Color { r, g, b, a }),
                        scan_end(s, p4, CharClass::Separator),
                    )),
                },
            },
        },
    }
}

pub open spec fn value_at(s: Seq<char>, p: int) -> Result<(ValueView, int), ParseError> {
    if 0 <= p < s.len() && is_digit(s[p]) {
        number_at(s, p)
    } else if starts_at(s, p, rgba_lit()) {
        color_at(s, p)
    } else {
        let e = scan_end(s, p, CharClass::Not(';'));
        Ok((ValueView::Keyword(s.subrange(p, e)), e))
    }
}

/// `Property := Identifier ':' Whitespace* Value Whitespace*`.
pub open spec fn property_at(s: Seq<char>, p: int) -> Result<(PropertyView, int), ParseError> {
    match ident_at(s, p) {
        Err(e) => Err(e),
        Ok((name, q)) => {
            if q >= s.len() || s[q] != ':' {
                Err(fail_at(s, q, Expected::Char(':')))
            } else {
                match value_at(s, scan_end(s, q + 1, CharClass::Space)) {
                    Err(e) => Err(e),
                    Ok((v, e)) => Ok(((name, v), scan_end(s, e, CharClass::Space))),
                }
            }
        },
    }
}

/// `(Property ';' Whitespace*)* '}'`, after the `{` and its whitespace.
pub open spec fn decls_at(s: Seq<char>, p: int) -> Result<(Seq<PropertyView>, int), ParseError>
    decreases s.len() - p,
{
    let q = scan_end(s, p, CharClass::Space);
    if q >= s.len() {
        Err(ParseError::UnexpectedEof)
    } else if s[q] == '}' {
        Ok((Seq::empty(), q + 1))
    } else {
        match property_at(s, q) {
            Err(e) => Err(e),
            Ok((prop, r)) => {
                if r >= s.len() || s[r] != ';' {
                    Err(fail_at(s, r, Expected::Char(';')))
                } else if r < p {
                    // never taken: a declaration does not end before it starts
                    Err(ParseError::UnexpectedEof)
                } else {
                    match decls_at(s, r + 1) {
                        Err(e) => Err(e),
                        Ok((rest, t)) => Ok((seq![prop] + rest, t)),
                    }
                }
            },
        }
    }
}

/// `Rule := Selector Whitespace* '{' Declarations`.
pub open spec fn rule_at(s: Seq<char>, p: int) -> Result<(RuleView, int), ParseError> {
    match selector_at(s, p, empty_selector()) {
        Err(e) => Err(e),
        Ok((sel, q)) => {
            let w = scan_end(s, q, CharClass::Space);
            if w >= s.len() || s[w] != '{' {
                Err(fail_at(s, w, Expected::Char('{')))
            } else {
                match decls_at(s, w + 1) {
                    Err(e) => Err(e),
                    Ok((ds, e)) => Ok((RuleView { selector: sel, declarations: ds }, e)),
                }
            }
        },
    }
}

/// Rules from `p` to the end of the input, whitespace around them skipped.
pub open spec fn rules_at(s: Seq<char>, p: int) -> Result<(Seq<RuleView>, int), ParseError>
    decreases s.len() - p,
{
    let q = scan_end(s, p, CharClass::Space);
    if q >= s.len() {
        Ok((Seq::empty(), q))
    } else {
        match rule_at(s, q) {
            Err(e) => Err(e),
            Ok((r, e)) => {
                // never taken: a rule is at least its two braces long
                if e <= p || e > s.len() {
                    Err(ParseError::UnexpectedEof)
                } else {
                    match rules_at(s, e) {
                        Err(e) => Err(e),
                        Ok((rest, t)) => Ok((seq![r] + rest, t)),
                    }
                }
            },
        }
    }
}

/// The rules that a stylesheet text denotes, in source order.
pub open spec fn sheet_of(s: Seq<char>) -> Result<Seq<RuleView>, ParseError> {
    match rules_at(s, 0) {
        Err(e) => Err(e),
        Ok((rs, _)) => Ok(rs),
    }
}

pub proof fn lemma_decimal_grows(t: Seq<char>, k: int)
    requires
        0 <= k <= t.len(),
        forall|j: int| 0 <= j < t.len() ==> in_class(#[trigger] t[j], CharClass::Number),
    ensures
        0 <= decimal_value(t.subrange(0, k)) <= decimal_value(t),
    decreases t.len(),
{
    if k == t.len() {
        assert(t.subrange(0, k) =~= t);
        if t.len() > 0 {
            lemma_decimal_grows(t.drop_last(), k - 1);
            assert(t.drop_last().subrange(0, k - 1) =~= t.drop_last());
        }
    } else {
        lemma_decimal_grows(t.drop_last(), k);
        assert(t.drop_last().subrange(0, k) =~= t.subrange(0, k));
    }
}

/// The digits of `s[start..end]` as one integer, when it is at most `max`.
fn digits_upto(s: &Vec<char>, start: usize, end: usize, max: u64) -> (r: Option<u64>)
    requires
        start <= end <= s@.len(),
        max >= 9,
        forall|j: int| start <= j < end ==> in_class(#[trigger] s@[j], CharClass::Number),
    ensures
        r matches Some(v) ==> v == decimal_value(s@.subrange(start as int, end as int)),
        r is Some <==> decimal_value(s@.subrange(start as int, end as int)) <= max,
{
    let ghost t = s@.subrange(start as int, end as int);
    let mut v: u64 = 0;
    let mut i = start;
    assert(s@.subrange(start as int, start as int) =~= Seq::<char>::empty());
    while i < end
        invariant
            start <= i <= end <= s@.len(),
            t == s@.subrange(start as int, end as int),
            forall|j: int| start <= j < end ==> in_class(#[trigger] s@[j], CharClass::Number),
            v == decimal_value(s@.subrange(start as int, i as int)),
            v <= max,
            max >= 9,
        decreases end - i,
    {
        let c = s[i];
        assert(s@.subrange(start as int, i + 1).drop_last() =~= s@.subrange(start as int, i as int));
        if c != '.' {
            let d = (c as u32 - '0' as u32) as u64;
            if v > (max - d) / 10 {
                proof {
                    assert(t.subrange(0, i + 1 - start) =~= s@.subrange(start as int, i + 1));
                    assert forall|j: int| 0 <= j < t.len() implies in_class(#[trigger] t[j], CharClass::Number) by {
                        assert(t[j] == s@[start + j]);
                    }
                    lemma_decimal_grows(t, i + 1 - start);
                }
                return None;
            }
            v = v * 10 + d;
        }
        i = i + 1;
    }
    assert(s@.subrange(start as int, i as int) =~= t);
    Some(v)
}

/// A cursor over the characters of a stylesheet text.
pub struct Parser {
    pub input: Vec<char>,
    pub pos: usize,
}

impl Parser {
    fn next_char(&self) -> (r: char)
        requires
            self.pos < self.input@.len(),
        ensures
            r == self.input@[self.pos as int],
            self.input@.len() <= usize::MAX,
    {
        proof {
            lemma_vec_len(&self.input);
        }
        self.input[self.pos]
    }

    fn eof(&self) -> (r: bool)
        ensures
            r == (self.pos >= self.input@.len()),
            self.input@.len() <= usize::MAX,
    {
        self.pos >= self.input.len()
    }

    fn consume_while(&mut self, k: CharClass) -> (r: String)
        requires
            old(self).pos <= old(self).input@.len(),
        ensures
            final(self).input == old(self).input,
            final(self).pos == scan_end(old(self).input@, old(self).pos as int, k),
            old(self).pos <= final(self).pos <= final(self).input@.len(),
            r@ == old(self).input@.subrange(old(self).pos as int, final(self).pos as int),
    {
        let start = self.pos;
        let end = scan(&self.input, start, k);
        proof {
            lemma_scan_end(self.input@, start as int, k);
        }
        self.pos = end;
        string_of(&self.input, start, end)
    }

    fn consume_whitespace(&mut self)
        requires
            old(self).pos <= old(self).input@.len(),
        ensures
            final(self).input == old(self).input,
            final(self).pos == scan_end(old(self).input@, old(self).pos as int, CharClass::Space),
            old(self).pos <= final(self).pos <= final(self).input@.len(),
    {
        proof {
            lemma_scan_end(self.input@, self.pos as int, CharClass::Space);
        }
        self.pos = scan(&self.input, self.pos, CharClass::Space);
    }

    fn parse_identifier(&mut self) -> (r: Result<String, ParseError>)
        requires
            old(self).pos <= old(self).input@.len(),
        ensures
            final(self).input == old(self).input,
            final(self).pos <= final(self).input@.len(),
            match r {
                Ok(t) => ident_at(old(self).input@, old(self).pos as int) == ok_at(t@, final(self).pos as int)
                    && old(self).pos < final(self).pos,
                Err(e) => ident_at(old(self).input@, old(self).pos as int) == fails::<Seq<char>>(e),
            },
    {
        let start = self.pos;
        let t = self.consume_while(CharClass::Ident);
        if self.pos == start {
            if self.eof() {
                Err(ParseError::UnexpectedEof)
            } else {
                Err(ParseError::UnexpectedChar { expected: Expected::Name, found: self.next_char(), position: start })
            }
        } else {
            Ok(t)
        }
    }

    fn parse_selector(&mut self) -> (r: Result<Selector, ParseError>)
        requires
            old(self).pos <= old(self).input@.len(),
        ensures
            final(self).input == old(self).input,
            final(self).pos <= final(self).input@.len(),
            match r {
                Ok(sel) => selector_at(old(self).input@, old(self).pos as int, empty_selector())
                    == ok_at(sel.view(), final(self).pos as int)
                    && old(self).pos <= final(self).pos,
                Err(e) => selector_at(old(self).input@, old(self).pos as int, empty_selector())
                    == fails::<SelectorView>(e),
            },
    {
        let ghost s = self.input@;
        let ghost p0 = self.pos as int;
        let mut selector = Selector { tag_name: None, id: None, class: Vec::new() };
        assert(selector.view().classes =~= Seq::<Seq<char>>::empty());
        loop
            invariant
                self.input@ == s,
                s == old(self).input@,
                p0 == old(self).pos,
                self.input == old(self).input,
                p0 <= self.pos <= s.len(),
                selector_at(s, self.pos as int, selector.view()) == selector_at(s, p0, empty_selector()),
            decreases s.len() - self.pos,
        {
            if self.eof() {
                return Err(ParseError::UnexpectedEof);
            }
            let c = self.next_char();
            if c == '{' {
                return Ok(selector);
            }
            if crate::text::space(c) {
                let w = scan(&self.input, self.pos, CharClass::Space);
                proof {
                    lemma_scan_end(s, self.pos as int, CharClass::Space);
                }
                if w >= self.input.len() {
                    return Err(ParseError::UnexpectedEof);
                }
                if self.input[w] == '{' {
                    return Ok(selector);
                }
                self.pos = w;
            } else if c == '#' || c == '.' || crate::text::has_class(c, CharClass::Ident) {
                let bare = c != '#' && c != '.';
                if bare {
                    match selector.tag_name {
                        Some(_) => return Err(ParseError::InvalidSelector),
                        None => {},
                    }
                } else {
                    self.pos = self.pos + 1;
                }
                let name = match self.parse_identifier() {
                    Ok(n) => n,
                    Err(e) => return Err(e),
                };
                if c == '#' {
                    selector.id = Some(name);
                } else if c == '.' {
                    let ghost before = selector.class@;
                    selector.class.push(name);
                    assert(selector.class@.map_values(|c: String| string_view(c))
                        =~= before.map_values(|c: String| string_view(c)).push(name@));
                } else {
                    selector.tag_name = Some(name);
                }
            } else {
                return Err(ParseError::UnexpectedChar { expected: Expected::Name, found: c, position: self.pos });
            }
        }
    }

    fn parse_number(&mut self) -> (r: Result<Decimal, ParseError>)
        requires
            old(self).pos < old(self).input@.len(),
        ensures
            final(self).input == old(self).input,
            old(self).pos <= final(self).pos <= final(self).input@.len(),
            match r {
                Ok(d) => number_at(old(self).input@, old(self).pos as int)
                    == ok_at(ValueView::Numeric(d, Unit::Px), final(self).pos as int),
                Err(e) => number_at(old(self).input@, old(self).pos as int) == fails::<ValueView>(e),
            },
    {
        let ghost s = self.input@;
        proof {
            lemma_vec_len(&self.input);
        }
        let start = self.pos;
        let end = scan(&self.input, start, CharClass::Number);
        proof {
            lemma_scan_end(s, start as int, CharClass::Number);
        }
        let mut dots: usize = 0;
        let mut frac: usize = 0;
        let mut i = start;
        assert(s.subrange(start as int, start as int) =~= Seq::<char>::empty());
        while i < end
            invariant
                start <= i <= end <= s.len(),
                s == self.input@,
                dots == dot_count(s.subrange(start as int, i as int)),
                frac == frac_len(s.subrange(start as int, i as int)),
                dots <= i - start,
                frac <= i - start,
            decreases end - i,
        {
            assert(s.subrange(start as int, i + 1).drop_last() =~= s.subrange(start as int, i as int));
            if self.input[i] == '.' {
                dots = dots + 1;
                frac = 0;
            } else {
                frac = if dots > 0 { frac + 1 } else { 0 };
            }
            i = i + 1;
        }
        if dots > 1 {
            return Err(ParseError::InvalidNumericLiteral);
        }
        let mantissa = match digits_upto(&self.input, start, end, u64::MAX) {
            Some(m) => m,
            None => return Err(ParseError::InvalidNumericLiteral),
        };
        self.pos = end;
        let px: Vec<char> = vec!['p', 'x'];
        assert(px@ =~= px_lit());
        if holds_at(&self.input, end, &px) {
            self.pos = end + 2;
        }
        Ok(Decimal { mantissa, scale: frac })
    }

    fn parse_component(&mut self) -> (r: Result<u8, ParseError>)
        requires
            old(self).pos <= old(self).input@.len(),
        ensures
            final(self).input == old(self).input,
            old(self).pos <= final(self).pos <= final(self).input@.len(),
            match r {
                Ok(v) => component_at(old(self).input@, old(self).pos as int) == ok_at(v, final(self).pos as int),
                Err(e) => component_at(old(self).input@, old(self).pos as int) == fails::<u8>(e),
            },
    {
        let ghost s = self.input@;
        self.pos = scan(&self.input, self.pos, CharClass::NonDigit);
        proof {
            lemma_scan_end(s, old(self).pos as int, CharClass::NonDigit);
        }
        if self.eof() {
            return Err(ParseError::UnexpectedEof);
        }
        let q = self.pos;
        let e = scan(&self.input, q, CharClass::Digit);
        proof {
            lemma_scan_end(s, q as int, CharClass::Digit);
        }
        match digits_upto(&self.input, q, e, 255) {
            Some(v) => {
                self.pos = e;
                Ok(v as u8)
            },
            None => Err(ParseError::InvalidColorComponent),
        }
    }

    fn parse_rgba(&mut self) -> (r: Result<Color, ParseError>)
        requires
            starts_at(old(self).input@, old(self).pos as int, rgba_lit()),
        ensures
            final(self).input == old(self).input,
            old(self).pos <= final(self).pos <= final(self).input@.len(),
            match r {
                Ok(c) => color_at(old(self).input@, old(self).pos as int)
                    == ok_at(ValueView::Color(c), final(self).pos as int),
                Err(e) => color_at(old(self).input@, old(self).pos as int) == fails::<ValueView>(e),
            },
    {
        proof {
            lemma_vec_len(&self.input);
        }
        self.pos = self.pos + 5;
        let r = match self.parse_component() {
            Ok(v) => v,
            Err(e) => return Err(e),
        };
        let g = match self.parse_component() {
            Ok(v) => v,
            Err(e) => return Err(e),
        };
        let b = match self.parse_component() {
            Ok(v) => v,
            Err(e) => return Err(e),
        };
        let a = match self.parse_component() {
            Ok(v) => v,
            Err(e) => return Err(e),
        };
        self.consume_while(CharClass::Separator);
        Ok(Color { r, g, b, a })
    }

    fn parse_value(&mut self) -> (r: Result<Value, ParseError>)
        requires
            old(self).pos <= old(self).input@.len(),
        ensures
            final(self).input == old(self).input,
            old(self).pos <= final(self).pos <= final(self).input@.len(),
            match r {
                Ok(v) => value_at(old(self).input@, old(self).pos as int) == ok_at(v.view(), final(self).pos as int),
                Err(e) => value_at(old(self).input@, old(self).pos as int) == fails::<ValueView>(e),
            },
    {
        let rgba: Vec<char> = vec!['r', 'g', 'b', 'a', '('];
        assert(rgba@ =~= rgba_lit());
        if !self.eof() && crate::text::has_class(self.next_char(), CharClass::Digit) {
            match self.parse_number() {
                Ok(d) => Ok(Value::Numeric(d, Unit::Px)),
                Err(e) => Err(e),
            }
        } else if holds_at(&self.input, self.pos, &rgba) {
            match self.parse_rgba() {
                Ok(c) => Ok(Value::ColorValue(c)),
                Err(e) => Err(e),
            }
        } else {
            Ok(Value::Keyword(self.consume_while(CharClass::Not(';'))))
        }
    }

    fn parse_property(&mut self) -> (r: Result<Property, ParseError>)
        requires
            old(self).pos <= old(self).input@.len(),
        ensures
            final(self).input == old(self).input,
            final(self).pos <= final(self).input@.len(),
            match r {
                Ok(p) => property_at(old(self).input@, old(self).pos as int)
                    == ok_at(property_view(p), final(self).pos as int)
                    && old(self).pos < final(self).pos,
                Err(e) => property_at(old(self).input@, old(self).pos as int) == fails::<PropertyView>(e),
            },
    {
        let name = match self.parse_identifier() {
            Ok(n) => n,
            Err(e) => return Err(e),
        };
        let ghost q = self.pos;
        if self.eof() {
            return Err(ParseError::UnexpectedEof);
        }
        if self.next_char() != ':' {
            return Err(ParseError::UnexpectedChar { expected: Expected::Char(':'), found: self.next_char(), position: self.pos });
        }
        self.pos = self.pos + 1;
        self.consume_whitespace();
        let value = match self.parse_value() {
            Ok(v) => v,
            Err(e) => return Err(e),
        };
        self.consume_whitespace();
        Ok(Property { name, value })
    }

    fn parse_declarations(&mut self) -> (r: Result<Vec<Property>, ParseError>)
        requires
            old(self).pos <= old(self).input@.len(),
        ensures
            final(self).input == old(self).input,
            final(self).pos <= final(self).input@.len(),
            match r {
                Ok(ps) => decls_at(old(self).input@, old(self).pos as int)
                    == ok_at(ps@.map_values(|p: Property| property_view(p)), final(self).pos as int)
                    && old(self).pos < final(self).pos,
                Err(e) => decls_at(old(self).input@, old(self).pos as int) == fails::<Seq<PropertyView>>(e),
            },
    {
        let ghost s = self.input@;
        let ghost p0 = self.pos as int;
        let mut properties: Vec<Property> = Vec::new();
        assert(properties@.map_values(|p: Property| property_view(p)) =~= Seq::<PropertyView>::empty());
        loop
            invariant
                self.input@ == s,
                s == old(self).input@,
                p0 == old(self).pos,
                self.input == old(self).input,
                p0 <= self.pos <= s.len(),
                after(properties@.map_values(|p: Property| property_view(p)), decls_at(s, self.pos as int))
                    == decls_at(s, p0),
            decreases s.len() - self.pos,
        {
            let ghost cur = self.pos as int;
            let ghost acc = properties@.map_values(|p: Property| property_view(p));
            self.consume_whitespace();
            if self.eof() {
                return Err(ParseError::UnexpectedEof);
            }
            if self.next_char() == '}' {
                self.pos = self.pos + 1;
                assert(acc + Seq::<PropertyView>::empty() =~= acc);
                return Ok(properties);
            }
            let prop = match self.parse_property() {
                Ok(p) => p,
                Err(e) => return Err(e),
            };
            if self.eof() {
                return Err(ParseError::UnexpectedEof);
            }
            if self.next_char() != ';' {
                return Err(ParseError::UnexpectedChar { expected: Expected::Char(';'), found: self.next_char(), position: self.pos });
            }
            self.pos = self.pos + 1;
            let ghost pv = property_view(prop);
            properties.push(prop);
            proof {
                assert(properties@.map_values(|p: Property| property_view(p)) =~= acc.push(pv));
                match decls_at(s, self.pos as int) {
                    Ok((rest, t)) => {
                        assert(acc + (seq![pv] + rest) =~= acc.push(pv) + rest);
                    },
                    Err(_) => {},
                }
            }
        }
    }

    fn parse_rule(&mut self) -> (r: Result<Rule, ParseError>)
        requires
            old(self).pos <= old(self).input@.len(),
        ensures
            final(self).input == old(self).input,
            final(self).pos <= final(self).input@.len(),
            match r {
                Ok(rule) => rule_at(old(self).input@, old(self).pos as int)
                    == ok_at(rule_view(rule), final(self).pos as int)
                    && old(self).pos < final(self).pos,
                Err(e) => rule_at(old(self).input@, old(self).pos as int) == fails::<RuleView>(e),
            },
    {
        let selector = match self.parse_selector() {
            Ok(s) => s,
            Err(e) => return Err(e),
        };
        self.consume_whitespace();
        if self.eof() {
            return Err(ParseError::UnexpectedEof);
        }
        if self.next_char() != '{' {
            return Err(ParseError::UnexpectedChar { expected: Expected::Char('{'), found: self.next_char(), position: self.pos });
        }
        self.pos = self.pos + 1;
        let declarations = match self.parse_declarations() {
            Ok(d) => d,
            Err(e) => return Err(e),
        };
        Ok(Rule { selector, declarations })
    }

    fn parse_rules(&mut self) -> (r: Result<Vec<Rule>, ParseError>)
        requires
            old(self).pos <= old(self).input@.len(),
        ensures
            final(self).input == old(self).input,
            match r {
                Ok(rs) => rules_at(old(self).input@, old(self).pos as int)
                    == ok_at(rs@.map_values(|r: Rule| rule_view(r)), final(self).pos as int),
                Err(e) => rules_at(old(self).input@, old(self).pos as int) == fails::<Seq<RuleView>>(e),
            },
    {
        let ghost s = self.input@;
        let ghost p0 = self.pos as int;
        let mut rules: Vec<Rule> = Vec::new();
        assert(rules@.map_values(|r: Rule| rule_view(r)) =~= Seq::<RuleView>::empty());
        loop
            invariant
                self.input@ == s,
                s == old(self).input@,
                p0 == old(self).pos,
                self.input == old(self).input,
                p0 <= self.pos <= s.len(),
                after(rules@.map_values(|r: Rule| rule_view(r)), rules_at(s, self.pos as int)) == rules_at(s, p0),
            decreases s.len() - self.pos,
        {
            let ghost acc = rules@.map_values(|r: Rule| rule_view(r));
            self.consume_whitespace();
            if self.eof() {
                assert(acc + Seq::<RuleView>::empty() =~= acc);
                return Ok(rules);
            }
            let rule = match self.parse_rule() {
                Ok(r) => r,
                Err(e) => return Err(e),
            };
            let ghost rv = rule_view(rule);
            rules.push(rule);
            proof {
                assert(rules@.map_values(|r: Rule| rule_view(r)) =~= acc.push(rv));
                match rules_at(s, self.pos as int) {
                    Ok((rest, t)) => {
                        assert(acc + (seq![rv] + rest) =~= acc.push(rv) + rest);
                    },
                    Err(_) => {},
                }
            }
        }
    }

    fn parse_stylesheet(&mut self) -> (r: Result<StyleSheet, ParseError>)
        requires
            old(self).pos == 0,
        ensures
            match r {
                Ok(sheet) => sheet_of(old(self).input@) == Ok::<Seq<RuleView>, ParseError>(sheet.view()),
                Err(e) => sheet_of(old(self).input@) == Err::<Seq<RuleView>, ParseError>(e),
            },
    {
        match self.parse_rules() {
            Ok(rules) => Ok(StyleSheet { rules }),
            Err(e) => Err(e),
        }
    }
}

/// Parses a stylesheet text into its rules, in source order.
pub fn parse(source: String) -> (r: Result<StyleSheet, ParseError>)
    ensures
        match r {
            Ok(sheet) => sheet_of(source@) == Ok::<Seq<RuleView>, ParseError>(sheet.view()),
            Err(e) => sheet_of(source@) == Err::<Seq<RuleView>, ParseError>(e),
        },
{
    let input = chars_of(source.as_str());
    let mut parser = Parser { input, pos: 0 };
    parser.parse_stylesheet()
}

} // verus!
