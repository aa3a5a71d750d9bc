//! The stylesheet model: rules, selectors, declarations and values.

use vstd::prelude::*;
use crate::dom::{chars_of, is_space, is_whitespace};

verus! {

/// Whether two strings hold the same text.
pub fn same_text(a: &str, b: &str) -> (r: bool)
    ensures
        r == (a@ == b@),
{
    let x = a.to_owned();
    let y = b.to_owned();
    x == y
}

/// A colour with eight bits per channel.
#[derive(Clone, Copy, Debug, PartialEq, Eq, Structural)]
pub struct Color {
    pub r: u8,
    pub g: u8,
    pub b: u8,
    pub a: u8,
}

/// The unit of a length.
#[derive(Clone, Copy, Debug, PartialEq, Eq, Structural)]
pub enum Unit {
    Px,
}

/// A declared value.  A length is a whole number of layout units.
#[derive(Debug)]
pub enum Value {
    Keyword(String),
    Length(i64, Unit),
    ColorValue(Color),
}

/// A size as a stylesheet states it: left open, or a number of layout units.
#[derive(Clone, Copy, Debug, PartialEq, Eq, Structural)]
pub enum Size {
    Auto,
    Units(i64),
}

impl Size {
    /// The number of units; an open size counts as zero.
    pub open spec fn px(self) -> int {
        match self {
            Size::Auto => 0,
            Size::Units(n) => n as int,
        }
    }

    /// The number of units, zero for an open size.
    pub fn to_px(self) -> (r: i64)
        ensures
            r == self.px(),
    {
        match self {
            Size::Auto => 0,
            Size::Units(n) => n,
        }
    }
}

impl Value {
    /// Whether this value is the keyword `auto`.
    pub open spec fn is_auto(&self) -> bool {
        match *self {
            Value::Keyword(s) => s@ == "auto"@,
            _ => false,
        }
    }

    /// The length in layout units; a value that is no length counts as zero.
    pub open spec fn px(&self) -> int {
        match *self {
            Value::Length(n, Unit::Px) => n as int,
            _ => 0,
        }
    }

    /// Tests for the keyword `auto`.
    pub fn auto(&self) -> (r: bool)
        ensures
            r == self.is_auto(),
    {
        match self {
            Value::Keyword(s) => same_text(s.as_str(), "auto"),
            _ => false,
        }
    }

    /// The length in layout units, zero for a keyword or a colour.
    pub fn to_px(&self) -> (r: i64)
        ensures
            r == self.px(),
    {
        match *self {
            Value::Length(n, Unit::Px) => n,
            _ => 0,
        }
    }

    /// This value as a size: the keyword `auto` leaves the size open, and
    /// any other value gives its length.
    pub open spec fn as_size(&self) -> Size {
        if self.is_auto() {
            Size::Auto
        } else {
            Size::Units(self.px() as i64)
        }
    }

    /// Reads this value as a size.
    pub fn size(&self) -> (r: Size)
        ensures
            r == self.as_size(),
    {
        if self.auto() {
            Size::Auto
        } else {
            Size::Units(self.to_px())
        }
    }
}

impl Clone for Value {
    fn clone(&self) -> (r: Value)
        ensures
            r == *self,
    {
        match self {
            Value::Keyword(s) => Value::Keyword(s.clone()),
            Value::Length(n, u) => Value::Length(*n, *u),
            Value::ColorValue(c) => Value::ColorValue(*c),
        }
    }
}

impl PartialEq for Value {
    fn eq(&self, other: &Value) -> (r: bool) {
        match (self, other) {
            (Value::Keyword(a), Value::Keyword(b)) => *a == *b,
            (Value::Length(a, Unit::Px), Value::Length(b, Unit::Px)) => *a == *b,
            (Value::ColorValue(a), Value::ColorValue(b)) => a.r == b.r && a.g == b.g && a.b == b.b
                && a.a == b.a,
            _ => false,
        }
    }
}

impl vstd::std_specs::cmp::PartialEqSpecImpl for Value {
    open spec fn obeys_eq_spec() -> bool {
        true
    }

    /// Two values are equal where they hold the same.
    open spec fn eq_spec(&self, other: &Value) -> bool {
        self@ == other@
    }
}

/// One property with its value.
#[derive(Debug, PartialEq)]
pub struct Declaration {
    pub name: String,
    pub value: Value,
}

/// A selector on tag, id and classes; a field that is absent matches
/// everything.
#[derive(Debug, PartialEq)]
pub struct SimpleSelector {
    pub tag_name: Option<String>,
    pub id: Option<String>,
    pub class: Vec<String>,
}

/// A selector; simple selectors are the only kind.
#[derive(Debug, PartialEq)]
pub enum Selector {
    Simple(SimpleSelector),
}

/// The weight of a selector: ids, classes, tags.  Weights are ordered as
/// triples, the first number counting most.
pub type Specificity = (usize, usize, usize);

/// Whether weight `a` is strictly below weight `b`.
pub open spec fn specificity_below(a: Specificity, b: Specificity) -> bool {
    a.0 < b.0 || (a.0 == b.0 && (a.1 < b.1 || (a.1 == b.1 && a.2 < b.2)))
}

/// Decides whether weight `a` is strictly below weight `b`.
pub fn is_below(a: Specificity, b: Specificity) -> (r: bool)
    ensures
        r == specificity_below(a, b),
{
    a.0 < b.0 || (a.0 == b.0 && (a.1 < b.1 || (a.1 == b.1 && a.2 < b.2)))
}

impl Selector {
    /// The weight of this selector: one for an id, the number of classes,
    /// one for a tag.
    pub open spec fn weight(&self) -> Specificity {
        match *self {
            Selector::Simple(simple) => (
                if simple.id is Some { 1usize } else { 0usize },
                simple.class@.len() as usize,
                if simple.tag_name is Some { 1usize } else { 0usize },
            ),
        }
    }

    /// Weighs this selector.
    pub fn specificity(&self) -> (r: Specificity)
        ensures
            r == self.weight(),
    {
        match self {
            Selector::Simple(simple) => {
                let a: usize = if simple.id.is_some() { 1 } else { 0 };
                let b: usize = simple.class.len();
                let c: usize = if simple.tag_name.is_some() { 1 } else { 0 };
                (a, b, c)
            },
        }
    }
}

/// Selectors with the declarations that hold where one of them matches.
#[derive(Debug, PartialEq)]
pub struct Rule {
    pub selectors: Vec<Selector>,
    pub declarations: Vec<Declaration>,
}

impl Rule {
    /// The selectors stand in descending order of weight, so that the first
    /// one that matches an element is the heaviest that does.
    pub open spec fn is_ordered(&self) -> bool {
        forall|i: int, j: int|
            0 <= i <= j < self.selectors@.len() ==> !specificity_below(
                #[trigger] self.selectors@[i].weight(),
                #[trigger] self.selectors@[j].weight(),
            )
    }
}

/// The rules of a stylesheet, in the order in which it states them.
#[derive(Debug, PartialEq)]
pub struct Stylesheet {
    pub rules: Vec<Rule>,
}

/// What a value holds.
pub enum ValueModel {
    Keyword(Seq<char>),
    Length(i64, Unit),
    ColorValue(Color),
}

impl View for Value {
    type V = ValueModel;

    open spec fn view(&self) -> ValueModel {
        match *self {
            Value::Keyword(s) => ValueModel::Keyword(s@),
            Value::Length(n, u) => ValueModel::Length(n, u),
            Value::ColorValue(c) => ValueModel::ColorValue(c),
        }
    }
}

/// What a declaration holds.
pub struct DeclarationModel {
    pub name: Seq<char>,
    pub value: ValueModel,
}

impl View for Declaration {
    type V = DeclarationModel;

    open spec fn view(&self) -> DeclarationModel {
        DeclarationModel { name: self.name@, value: self.value@ }
    }
}

/// What a selector holds.
pub struct SelectorModel {
    pub tag_name: Option<Seq<char>>,
    pub id: Option<Seq<char>>,
    pub class: Seq<Seq<char>>,
}

impl SelectorModel {
    /// The selector that asks for nothing.
    pub open spec fn blank() -> SelectorModel {
        SelectorModel { tag_name: None, id: None, class: Seq::empty() }
    }

    /// The weight of a selector that holds this.
    pub open spec fn weight(self) -> Specificity {
        (
            if self.id is Some { 1usize } else { 0usize },
            self.class.len() as usize,
            if self.tag_name is Some { 1usize } else { 0usize },
        )
    }
}

impl View for SimpleSelector {
    type V = SelectorModel;

    open spec fn view(&self) -> SelectorModel {
        SelectorModel {
            tag_name: match self.tag_name {
                Some(t) => Some(t@),
                None => None,
            },
            id: match self.id {
                Some(i) => Some(i@),
                None => None,
            },
            class: self.class@.map_values(|c: String| c@),
        }
    }
}

impl View for Selector {
    type V = SelectorModel;

    open spec fn view(&self) -> SelectorModel {
        match *self {
            Selector::Simple(simple) => simple@,
        }
    }
}

/// What each selector of `list` holds.
pub open spec fn selector_models(list: Seq<Selector>) -> Seq<SelectorModel> {
    list.map_values(|s: Selector| s@)
}

/// What each declaration of `list` holds.
pub open spec fn declaration_models(list: Seq<Declaration>) -> Seq<DeclarationModel> {
    list.map_values(|d: Declaration| d@)
}

/// What a rule holds.
pub struct RuleModel {
    pub selectors: Seq<SelectorModel>,
    pub declarations: Seq<DeclarationModel>,
}

impl View for Rule {
    type V = RuleModel;

    open spec fn view(&self) -> RuleModel {
        RuleModel {
            selectors: selector_models(self.selectors@),
            declarations: declaration_models(self.declarations@),
        }
    }
}

/// What each rule of `list` holds.
pub open spec fn rule_models(list: Seq<Rule>) -> Seq<RuleModel> {
    list.map_values(|r: Rule| r@)
}

impl View for Stylesheet {
    type V = Seq<RuleModel>;

    open spec fn view(&self) -> Seq<RuleModel> {
        rule_models(self.rules@)
    }
}

/// What can go wrong in reading a stylesheet.
#[derive(Clone, Copy, Debug, PartialEq, Eq, Structural)]
pub enum ParseError {
    /// A list of selectors goes on with a character that is neither a comma
    /// nor the brace that opens the declarations, or ends before either.
    SelectorSyntax,
    /// A block of declarations is not of the form that this reader takes.
    DeclarationSyntax,
}

/// A character of a name: a letter or digit of ASCII, a hyphen or an
/// underscore.
pub open spec fn is_name_char(c: char) -> bool {
    ('a' <= c <= 'z') || ('A' <= c <= 'Z') || ('0' <= c <= '9') || c == '-' || c == '_'
}

/// Tests for a character of a name.
pub fn valid_identifier_char(c: char) -> (r: bool)
    ensures
        r == is_name_char(c),
{
    ('a' <= c && c <= 'z') || ('A' <= c && c <= 'Z') || ('0' <= c && c <= '9') || c == '-' || c
        == '_'
}

/// How many characters of a name stand in `s` from place `from` on.
pub open spec fn name_len(s: Seq<char>, from: int) -> nat
    decreases s.len() - from,
{
    if 0 <= from < s.len() && is_name_char(s[from]) {
        1 + name_len(s, from + 1)
    } else {
        0
    }
}

/// How many characters of white space stand in `s` from place `from` on.
pub open spec fn space_len(s: Seq<char>, from: int) -> nat
    decreases s.len() - from,
{
    if 0 <= from < s.len() && is_space(s[from]) {
        1 + space_len(s, from + 1)
    } else {
        0
    }
}

/// A run of name characters ends inside the text.
pub proof fn lemma_name_len_bound(s: Seq<char>, from: int)
    requires
        0 <= from <= s.len(),
    ensures
        from + name_len(s, from) <= s.len(),
    decreases s.len() - from,
{
    if from < s.len() && is_name_char(s[from]) {
        lemma_name_len_bound(s, from + 1);
    }
}

/// A run of white space ends inside the text.
pub proof fn lemma_space_len_bound(s: Seq<char>, from: int)
    requires
        0 <= from <= s.len(),
    ensures
        from + space_len(s, from) <= s.len(),
    decreases s.len() - from,
{
    if from < s.len() && is_space(s[from]) {
        lemma_space_len_bound(s, from + 1);
    }
}

/// The simple selector that stands in `s` at place `pos`, on top of what
/// `so_far` holds, and the place behind it.  It is a run of parts: `#` and a
/// name give the id, `.` and a name add a class, `*` adds nothing, a name
/// gives the tag; a part of a kind that came before replaces it.  The run
/// ends at the first character that starts no part.
pub open spec fn simple_selector_at(s: Seq<char>, pos: int, so_far: SelectorModel) -> (SelectorModel, int)
    decreases s.len() - pos,
{
    if pos < 0 || pos >= s.len() {
        (so_far, pos)
    } else {
        let end = pos + 1 + name_len(s, pos + 1);
        proof {
            lemma_name_len_bound(s, pos + 1);
        }
        if s[pos] == '#' {
            simple_selector_at(s, end, SelectorModel { id: Some(s.subrange(pos + 1, end)), ..so_far })
        } else if s[pos] == '.' {
            simple_selector_at(
                s,
                end,
                SelectorModel { class: so_far.class.push(s.subrange(pos + 1, end)), ..so_far },
            )
        } else if s[pos] == '*' {
            simple_selector_at(s, pos + 1, so_far)
        } else if is_name_char(s[pos]) {
            simple_selector_at(s, end, SelectorModel { tag_name: Some(s.subrange(pos, end)), ..so_far })
        } else {
            (so_far, pos)
        }
    }
}

/// A simple selector ends behind where it starts, and inside the text.
pub proof fn lemma_simple_selector_end(s: Seq<char>, pos: int, so_far: SelectorModel)
    requires
        0 <= pos <= s.len(),
    ensures
        pos <= simple_selector_at(s, pos, so_far).1 <= s.len(),
    decreases s.len() - pos,
{
    if pos < s.len() {
        let end = pos + 1 + name_len(s, pos + 1);
        lemma_name_len_bound(s, pos + 1);
        if s[pos] == '#' {
            lemma_simple_selector_end(s, end, SelectorModel { id: Some(s.subrange(pos + 1, end)), ..so_far });
        } else if s[pos] == '.' {
            lemma_simple_selector_end(
                s,
                end,
                SelectorModel { class: so_far.class.push(s.subrange(pos + 1, end)), ..so_far },
            );
        } else if s[pos] == '*' {
            lemma_simple_selector_end(s, pos + 1, so_far);
        } else if is_name_char(s[pos]) {
            lemma_simple_selector_end(s, end, SelectorModel { tag_name: Some(s.subrange(pos, end)), ..so_far });
        }
    }
}

/// The list of selectors that stands in `s` at place `pos`, behind those of
/// `so_far`, and the place of the brace that ends it.  Selectors are parted
/// by a comma, with white space at will before and after it.
pub open spec fn selectors_at(
    s: Seq<char>,
    pos: int,
    so_far: Seq<SelectorModel>,
) -> Result<(Seq<SelectorModel>, int), ParseError>
    decreases s.len() - pos,
{
    if pos < 0 || pos > s.len() {
        Err(ParseError::SelectorSyntax)
    } else {
        let (selector, behind) = simple_selector_at(s, pos, SelectorModel::blank());
        let next = behind + space_len(s, behind);
        let list = so_far.push(selector);
        proof {
            lemma_simple_selector_end(s, pos, SelectorModel::blank());
        }
        if next >= s.len() {
            Err(ParseError::SelectorSyntax)
        } else if s[next] == ',' {
            proof {
                lemma_space_len_bound(s, next + 1);
            }
            selectors_at(s, next + 1 + space_len(s, next + 1), list)
        } else if s[next] == '{' {
            Ok((list, next))
        } else {
            Err(ParseError::SelectorSyntax)
        }
    }
}

/// `sorted` with `x` put behind the last selector that weighs no less.
pub open spec fn placed_by_weight(
    sorted: Seq<SelectorModel>,
    x: SelectorModel,
) -> Seq<SelectorModel>
    decreases sorted.len(),
{
    if sorted.len() == 0 {
        seq![x]
    } else if specificity_below(sorted.last().weight(), x.weight()) {
        placed_by_weight(sorted.drop_last(), x).push(sorted.last())
    } else {
        sorted.push(x)
    }
}

/// The first `n` of `list` in descending order of weight, selectors of one
/// weight in the order in which they stand in `list`.
pub open spec fn by_weight(list: Seq<SelectorModel>, n: nat) -> Seq<SelectorModel>
    decreases n,
{
    if n == 0 || n > list.len() {
        Seq::empty()
    } else {
        placed_by_weight(by_weight(list, (n - 1) as nat), list[n - 1])
    }
}

/// No selector of `list` weighs less than one that stands before it.
pub open spec fn descending(list: Seq<SelectorModel>) -> bool {
    forall|i: int, j: int|
        0 <= i <= j < list.len() ==> !specificity_below(
            #[trigger] list[i].weight(),
            #[trigger] list[j].weight(),
        )
}

proof fn lemma_placed_at(sorted: Seq<SelectorModel>, x: SelectorModel, p: int)
    requires
        0 <= p <= sorted.len(),
        forall|k: int| p <= k < sorted.len() ==> specificity_below(#[trigger] sorted[k].weight(), x.weight()),
        p == 0 || !specificity_below(sorted[p - 1].weight(), x.weight()),
    ensures
        placed_by_weight(sorted, x) == sorted.insert(p, x),
    decreases sorted.len() - p,
{
    if p < sorted.len() {
        lemma_placed_at(sorted.drop_last(), x, p);
    }
}

proof fn lemma_placed_descending(sorted: Seq<SelectorModel>, x: SelectorModel)
    requires
        descending(sorted),
    ensures
        descending(placed_by_weight(sorted, x)),
        placed_by_weight(sorted, x).len() == sorted.len() + 1,
        forall|k: int|
            0 <= k < placed_by_weight(sorted, x).len() ==> #[trigger] placed_by_weight(sorted, x)[k] == x
                || exists|j: int| 0 <= j < sorted.len() && sorted[j] == placed_by_weight(sorted, x)[k],
    decreases sorted.len(),
{
    if sorted.len() > 0 && specificity_below(sorted.last().weight(), x.weight()) {
        let front = sorted.drop_last();
        assert(descending(front));
        lemma_placed_descending(front, x);
    }
}

/// Selectors put in order of weight stand in descending order, and none is
/// lost.
pub proof fn lemma_by_weight_descending(list: Seq<SelectorModel>, n: nat)
    requires
        n <= list.len(),
    ensures
        descending(by_weight(list, n)),
        by_weight(list, n).len() == n,
    decreases n,
{
    if n > 0 {
        lemma_by_weight_descending(list, (n - 1) as nat);
        lemma_placed_descending(by_weight(list, (n - 1) as nat), list[n - 1]);
    }
}

/// Puts selectors in descending order of weight; selectors of one weight
/// keep their order.
pub fn sort_selectors(selectors: Vec<Selector>) -> (r: Vec<Selector>)
    ensures
        selector_models(r@) == by_weight(selector_models(selectors@), selectors@.len()),
        descending(selector_models(r@)),
        r@.len() == selectors@.len(),
{
    let ghost all = selector_models(selectors@);
    let mut rest = selectors;
    let mut out: Vec<Selector> = Vec::new();
    let ghost mut n: nat = 0;
    while rest.len() > 0
        invariant
            n + rest@.len() == all.len(),
            selector_models(rest@) == all.subrange(n as int, all.len() as int),
            selector_models(out@) == by_weight(all, n),
            out@.len() == n,
        decreases rest@.len(),
    {
        let ghost rest_before = rest@;
        let x = rest.remove(0);
        let w = x.specificity();
        assert(x@ == all[n as int]) by {
            assert(selector_models(rest_before)[0] == rest_before[0]@);
        }
        let mut p: usize = out.len();
        while p > 0 && is_below(out[p - 1].specificity(), w)
            invariant
                0 <= p <= out@.len(),
                w == x@.weight(),
                forall|k: int|
                    p <= k < out@.len() ==> specificity_below(
                        #[trigger] selector_models(out@)[k].weight(),
                        x@.weight(),
                    ),
            decreases p,
        {
            p = p - 1;
        }
        proof {
            lemma_placed_at(selector_models(out@), x@, p as int);
        }
        out.insert(p, x);
        proof {
            assert(selector_models(rest@) =~= all.subrange(n as int + 1, all.len() as int)) by {
                assert forall|k: int| 0 <= k < rest@.len() implies selector_models(rest@)[k]
                    == all.subrange(n as int + 1, all.len() as int)[k] by {
                    assert(selector_models(rest_before)[k + 1] == rest_before[k + 1]@);
                }
            }
            n = n + 1;
        }
    }
    proof {
        lemma_by_weight_descending(all, all.len());
    }
    out
}

/// A digit of ASCII.
pub open spec fn is_digit(c: char) -> bool {
    '0' <= c <= '9'
}

/// How many digits stand in `s` from place `from` on.
pub open spec fn digit_len(s: Seq<char>, from: int) -> nat
    decreases s.len() - from,
{
    if 0 <= from < s.len() && is_digit(s[from]) {
        1 + digit_len(s, from + 1)
    } else {
        0
    }
}

/// A run of digits ends inside the text.
pub proof fn lemma_digit_len_bound(s: Seq<char>, from: int)
    requires
        0 <= from <= s.len(),
    ensures
        from + digit_len(s, from) <= s.len(),
    decreases s.len() - from,
{
    if from < s.len() && is_digit(s[from]) {
        lemma_digit_len_bound(s, from + 1);
    }
}

/// The number that a run of digits writes, in base ten.
pub open spec fn number_of(digits: Seq<char>) -> nat
    decreases digits.len(),
{
    if digits.len() == 0 {
        0
    } else {
        (number_of(digits.drop_last()) * 10 + (digits.last() as u32 - '0' as u32)) as nat
    }
}

/// What a digit of base sixteen counts, in either case of the letters.
pub open spec fn hex_of(c: char) -> Option<u8> {
    if '0' <= c <= '9' {
        Some((c as u32 - '0' as u32) as u8)
    } else if 'a' <= c <= 'f' {
        Some((c as u32 - 'a' as u32 + 10) as u8)
    } else if 'A' <= c <= 'F' {
        Some((c as u32 - 'A' as u32 + 10) as u8)
    } else {
        None
    }
}

/// The number that the two digits of base sixteen at place `at` write.
pub open spec fn hex_pair(s: Seq<char>, at: int) -> Option<u8> {
    if 0 <= at && at + 2 <= s.len() {
        match (hex_of(s[at]), hex_of(s[at + 1])) {
            (Some(high), Some(low)) => Some((high * 16 + low) as u8),
            _ => None,
        }
    } else {
        None
    }
}

/// Whether `unit` writes the unit of pixels, in either case of the letters.
pub open spec fn is_px(unit: Seq<char>) -> bool {
    unit.len() == 2 && (unit[0] == 'p' || unit[0] == 'P') && (unit[1] == 'x' || unit[1] == 'X')
}

/// The value that stands in `s` at place `pos`, and the place behind it.
/// Digits and the unit `px` write a length; `#` and six digits of base
/// sixteen write an opaque colour; anything else is read as a name and
/// taken as a keyword.
pub open spec fn value_at(s: Seq<char>, pos: int) -> Result<(ValueModel, int), ParseError> {
    if pos < 0 || pos >= s.len() {
        Err(ParseError::DeclarationSyntax)
    } else if is_digit(s[pos]) {
        let digits_end = pos + digit_len(s, pos);
        let unit_end = digits_end + name_len(s, digits_end);
        let number = number_of(s.subrange(pos, digits_end));
        if number <= i64::MAX && is_px(s.subrange(digits_end, unit_end)) {
            Ok((ValueModel::Length(number as i64, Unit::Px), unit_end))
        } else {
            Err(ParseError::DeclarationSyntax)
        }
    } else if s[pos] == '#' {
        match (hex_pair(s, pos + 1), hex_pair(s, pos + 3), hex_pair(s, pos + 5)) {
            (Some(r), Some(g), Some(b)) => Ok(
                (ValueModel::ColorValue(Color { r, g, b, a: 255 }), pos + 7),
            ),
            _ => Err(ParseError::DeclarationSyntax),
        }
    } else {
        let end = pos + name_len(s, pos);
        Ok((ValueModel::Keyword(s.subrange(pos, end)), end))
    }
}

/// A value ends inside the text, and not before it starts.
pub proof fn lemma_value_end(s: Seq<char>, pos: int)
    requires
        value_at(s, pos) is Ok,
    ensures
        pos <= value_at(s, pos)->Ok_0.1 <= s.len(),
{
    lemma_digit_len_bound(s, pos);
    lemma_name_len_bound(s, pos + digit_len(s, pos));
}

/// The declaration that stands in `s` at place `pos`, and the place behind
/// it: a name, a colon, a value and a semicolon, with white space at will
/// between them.
pub open spec fn declaration_at(
    s: Seq<char>,
    pos: int,
) -> Result<(DeclarationModel, int), ParseError> {
    let name_end = pos + name_len(s, pos);
    let colon = name_end + space_len(s, name_end);
    if pos < 0 || colon >= s.len() || s[colon] != ':' {
        Err(ParseError::DeclarationSyntax)
    } else {
        match value_at(s, colon + 1 + space_len(s, colon + 1)) {
            Err(e) => Err(e),
            Ok((value, behind)) => {
                let semicolon = behind + space_len(s, behind);
                if semicolon >= s.len() || s[semicolon] != ';' {
                    Err(ParseError::DeclarationSyntax)
                } else {
                    Ok((DeclarationModel { name: s.subrange(pos, name_end), value }, semicolon + 1))
                }
            },
        }
    }
}

/// A declaration ends inside the text, behind where it starts.
pub proof fn lemma_declaration_end(s: Seq<char>, pos: int)
    requires
        declaration_at(s, pos) is Ok,
    ensures
        pos < declaration_at(s, pos)->Ok_0.1 <= s.len(),
{
    let name_end = pos + name_len(s, pos);
    let colon = name_end + space_len(s, name_end);
    lemma_value_end(s, colon + 1 + space_len(s, colon + 1));
}

/// The declarations that stand in `s` from place `pos` on, behind those of
/// `so_far`, up to the closing brace, and the place behind the brace.
pub open spec fn declarations_at(
    s: Seq<char>,
    pos: int,
    so_far: Seq<DeclarationModel>,
) -> Result<(Seq<DeclarationModel>, int), ParseError>
    decreases s.len() - pos,
{
    let next = pos + space_len(s, pos);
    if pos < 0 || next >= s.len() {
        Err(ParseError::DeclarationSyntax)
    } else if s[next] == '}' {
        Ok((so_far, next + 1))
    } else {
        match declaration_at(s, next) {
            Err(e) => Err(e),
            Ok((declaration, behind)) => {
                declarations_at(s, behind, so_far.push(declaration))
            },
        }
    }
}

/// Declarations end inside the text, behind where they start.
pub proof fn lemma_declarations_end(s: Seq<char>, pos: int, so_far: Seq<DeclarationModel>)
    requires
        declarations_at(s, pos, so_far) is Ok,
    ensures
        pos < declarations_at(s, pos, so_far)->Ok_0.1 <= s.len(),
    decreases s.len() - pos,
{
    let next = pos + space_len(s, pos);
    if s[next] != '}' {
        let (declaration, behind) = declaration_at(s, next)->Ok_0;
        lemma_declarations_end(s, behind, so_far.push(declaration));
    }
}

/// The block of declarations that stands in `s` at place `pos`, from its
/// opening brace to its closing one.
pub open spec fn block_at(
    s: Seq<char>,
    pos: int,
) -> Result<(Seq<DeclarationModel>, int), ParseError> {
    if 0 <= pos < s.len() && s[pos] == '{' {
        declarations_at(s, pos + 1, Seq::empty())
    } else {
        Err(ParseError::DeclarationSyntax)
    }
}

/// The rule that stands in `s` at place `pos`, and the place behind it: a
/// list of selectors, put in descending order of weight, and a block of
/// declarations.
pub open spec fn rule_at(s: Seq<char>, pos: int) -> Result<(RuleModel, int), ParseError> {
    match selectors_at(s, pos, Seq::empty()) {
        Err(e) => Err(e),
        Ok((list, brace)) => match block_at(s, brace) {
            Err(e) => Err(e),
            Ok((declarations, behind)) => Ok(
                (RuleModel { selectors: by_weight(list, list.len()), declarations }, behind),
            ),
        },
    }
}

/// A list of selectors ends inside the text, and not before it starts.
pub proof fn lemma_selectors_end(s: Seq<char>, pos: int, so_far: Seq<SelectorModel>)
    requires
        selectors_at(s, pos, so_far) is Ok,
    ensures
        pos <= selectors_at(s, pos, so_far)->Ok_0.1 < s.len(),
    decreases s.len() - pos,
{
    let (selector, behind) = simple_selector_at(s, pos, SelectorModel::blank());
    let next = behind + space_len(s, behind);
    lemma_simple_selector_end(s, pos, SelectorModel::blank());
    if s[next] == ',' {
        lemma_space_len_bound(s, next + 1);
        lemma_selectors_end(s, next + 1 + space_len(s, next + 1), so_far.push(selector));
    }
}

/// The rules that stand in `s` from place `pos` on, behind those of
/// `so_far`, up to the end of the text.
pub open spec fn rules_at(
    s: Seq<char>,
    pos: int,
    so_far: Seq<RuleModel>,
) -> Result<Seq<RuleModel>, ParseError>
    decreases s.len() - pos,
{
    let next = pos + space_len(s, pos);
    if pos < 0 || next >= s.len() {
        Ok(so_far)
    } else {
        match rule_at(s, next) {
            Err(e) => Err(e),
            Ok((rule, behind)) => {
                proof {
                    lemma_selectors_end(s, next, Seq::empty());
                    let brace = selectors_at(s, next, Seq::empty())->Ok_0.1;
                    lemma_declarations_end(s, brace + 1, Seq::empty());
                }
                rules_at(s, behind, so_far.push(rule))
            },
        }
    }
}

/// Reads a stylesheet from its text.
pub struct Parser {
    /// The place of the next character, counted in characters.
    pub pos: usize,
    pub input: String,
    /// The characters of the input, one by one.
    pub chars: Vec<char>,
}

impl Parser {
    /// The reader has the characters of its input and stands among them.
    pub open spec fn wf(&self) -> bool {
        self.chars@ == self.input@ && self.pos <= self.chars@.len()
    }

    /// A reader at the start of `input`.
    pub fn new(input: String) -> (r: Parser)
        ensures
            r.wf(),
            r.pos == 0,
            r.input == input,
    {
        let chars = chars_of(input.as_str());
        Parser { pos: 0, input, chars }
    }

    /// Whether all input is read.
    pub fn eof(&self) -> (r: bool)
        requires
            self.wf(),
        ensures
            r == (self.pos >= self.input@.len()),
            self.input@.len() <= usize::MAX,
    {
        self.pos >= self.chars.len()
    }

    /// The next character, which is left where it is.
    pub fn next_char(&self) -> (c: char)
        requires
            self.wf(),
            self.pos < self.input@.len(),
        ensures
            c == self.input@[self.pos as int],
            self.input@.len() <= usize::MAX,
    {
        let c = self.chars[self.pos];
        assert(self.chars@.len() == self.chars.len());
        c
    }

    /// Reads the next character.
    pub fn consume_char(&mut self) -> (c: char)
        requires
            old(self).wf(),
            old(self).pos < old(self).input@.len(),
        ensures
            final(self).wf(),
            final(self).input == old(self).input,
            final(self).pos == old(self).pos + 1,
            c == old(self).input@[old(self).pos as int],
    {
        let c = self.next_char();
        self.pos = self.pos + 1;
        c
    }

    /// Reads the white space that stands next.
    pub fn consume_whitespace(&mut self)
        requires
            old(self).wf(),
        ensures
            final(self).wf(),
            final(self).input == old(self).input,
            final(self).pos == old(self).pos + space_len(old(self).input@, old(self).pos as int),
    {
        while !self.eof() && is_whitespace(self.next_char())
            invariant
                self.wf(),
                self.input == old(self).input,
                old(self).pos <= self.pos,
                old(self).pos + space_len(self.input@, old(self).pos as int) == self.pos + space_len(
                    self.input@,
                    self.pos as int,
                ),
            decreases self.chars@.len() - self.pos,
        {
            self.pos = self.pos + 1;
        }
    }

    /// Reads the name that stands next; it is empty where no character of a
    /// name stands.
    pub fn parse_identifier(&mut self) -> (r: String)
        requires
            old(self).wf(),
        ensures
            final(self).wf(),
            final(self).input == old(self).input,
            final(self).pos == old(self).pos + name_len(old(self).input@, old(self).pos as int),
            r@ == old(self).input@.subrange(old(self).pos as int, final(self).pos as int),
    {
        let start: usize = self.pos;
        while !self.eof() && valid_identifier_char(self.next_char())
            invariant
                self.wf(),
                self.input == old(self).input,
                start == old(self).pos,
                start <= self.pos,
                start + name_len(self.input@, start as int) == self.pos + name_len(
                    self.input@,
                    self.pos as int,
                ),
            decreases self.chars@.len() - self.pos,
        {
            self.pos = self.pos + 1;
        }
        self.input.as_str().substring_char(start, self.pos).to_owned()
    }

    /// Reads one simple selector, such as `type#id.class1.class2`.
    pub fn parse_simple_selector(&mut self) -> (r: SimpleSelector)
        requires
            old(self).wf(),
        ensures
            final(self).wf(),
            final(self).input == old(self).input,
            (r@, final(self).pos as int) == simple_selector_at(
                old(self).input@,
                old(self).pos as int,
                SelectorModel::blank(),
            ),
    {
        let mut selector = SimpleSelector { tag_name: None, id: None, class: Vec::new() };
        let mut done = false;
        assert(selector@.class =~= Seq::empty());
        while !done && !self.eof()
            invariant
                self.wf(),
                self.input == old(self).input,
                simple_selector_at(self.input@, old(self).pos as int, SelectorModel::blank())
                    == simple_selector_at(self.input@, self.pos as int, selector@),
                done ==> simple_selector_at(self.input@, self.pos as int, selector@) == (
                    selector@,
                    self.pos as int,
                ),
            decreases self.chars@.len() - self.pos, if done { 0int } else { 1int },
        {
            let c = self.next_char();
            let ghost before = selector@;
            if c == '#' {
                self.consume_char();
                selector.id = Some(self.parse_identifier());
            } else if c == '.' {
                self.consume_char();
                let name = self.parse_identifier();
                selector.class.push(name);
                assert(selector@.class =~= before.class.push(name@));
            } else if c == '*' {
                // The universal selector asks for nothing.
                self.consume_char();
            } else if valid_identifier_char(c) {
                selector.tag_name = Some(self.parse_identifier());
            } else {
                done = true;
            }
        }
        selector
    }

    /// Reads a list of selectors up to the brace that ends it, and puts it
    /// in descending order of weight, for use in matching.
    pub fn parse_selectors(&mut self) -> (r: Result<Vec<Selector>, ParseError>)
        requires
            old(self).wf(),
        ensures
            final(self).wf(),
            final(self).input == old(self).input,
            match selectors_at(old(self).input@, old(self).pos as int, Seq::empty()) {
                Ok((list, brace)) => r is Ok && selector_models(r->Ok_0@) == by_weight(list, list.len())
                    && descending(selector_models(r->Ok_0@)) && final(self).pos == brace,
                Err(e) => r == Err::<Vec<Selector>, ParseError>(e),
            },
    {
        let mut selectors: Vec<Selector> = Vec::new();
        let mut found = false;
        assert(selector_models(selectors@) =~= Seq::empty());
        while !found
            invariant
                self.wf(),
                self.input == old(self).input,
                !found ==> selectors_at(self.input@, old(self).pos as int, Seq::empty()) == selectors_at(
                    self.input@,
                    self.pos as int,
                    selector_models(selectors@),
                ),
                found ==> selectors_at(self.input@, old(self).pos as int, Seq::empty()) == Ok::<
                    (Seq<SelectorModel>, int),
                    ParseError,
                >((selector_models(selectors@), self.pos as int)),
            decreases self.chars@.len() - self.pos, if found { 0int } else { 1int },
        {
            let ghost before = selector_models(selectors@);
            let ghost start = self.pos;
            let simple = self.parse_simple_selector();
            proof {
                lemma_simple_selector_end(self.input@, start as int, SelectorModel::blank());
            }
            selectors.push(Selector::Simple(simple));
            assert(selector_models(selectors@) =~= before.push(simple@));
            self.consume_whitespace();
            if self.eof() {
                return Err(ParseError::SelectorSyntax);
            }
            let c = self.next_char();
            if c == ',' {
                self.consume_char();
                self.consume_whitespace();
            } else if c == '{' {
                // The declarations start here.
                found = true;
            } else {
                return Err(ParseError::SelectorSyntax);
            }
        }
        Ok(sort_selectors(selectors))
    }

    /// Reads digits as a whole number; none where the number is more than a
    /// length can hold.
    fn parse_number(&mut self) -> (r: Option<i64>)
        requires
            old(self).wf(),
        ensures
            final(self).wf(),
            final(self).input == old(self).input,
            final(self).pos == old(self).pos + digit_len(old(self).input@, old(self).pos as int),
            r == (if number_of(
                old(self).input@.subrange(old(self).pos as int, final(self).pos as int),
            ) <= i64::MAX {
                Some(
                    number_of(
                        old(self).input@.subrange(old(self).pos as int, final(self).pos as int),
                    ) as i64,
                )
            } else {
                None
            }),
    {
        let start: usize = self.pos;
        let mut total: i64 = 0;
        let mut fits = true;
        while !self.eof() && is_digit_char(self.next_char())
            invariant
                self.wf(),
                self.input == old(self).input,
                start == old(self).pos,
                start <= self.pos,
                start + digit_len(self.input@, start as int) == self.pos + digit_len(
                    self.input@,
                    self.pos as int,
                ),
                0 <= total,
                fits ==> total == number_of(self.input@.subrange(start as int, self.pos as int)),
                !fits ==> number_of(self.input@.subrange(start as int, self.pos as int)) > i64::MAX,
            decreases self.chars@.len() - self.pos,
        {
            let c = self.next_char();
            let digit: i64 = (c as u32 - '0' as u32) as i64;
            proof {
                let longer = self.input@.subrange(start as int, self.pos + 1);
                assert(longer.drop_last() =~= self.input@.subrange(start as int, self.pos as int));
            }
            if fits {
                if total > (i64::MAX - digit) / 10 {
                    fits = false;
                } else {
                    total = total * 10 + digit;
                }
            }
            self.pos = self.pos + 1;
        }
        if fits {
            Some(total)
        } else {
            None
        }
    }

    /// Reads a length: a whole number and the unit `px`.
    fn parse_length(&mut self) -> (r: Result<Value, ParseError>)
        requires
            old(self).wf(),
            old(self).pos < old(self).input@.len(),
            is_digit(old(self).input@[old(self).pos as int]),
        ensures
            final(self).wf(),
            final(self).input == old(self).input,
            match value_at(old(self).input@, old(self).pos as int) {
                Ok((value, behind)) => r is Ok && r->Ok_0@ == value && final(self).pos == behind,
                Err(e) => r == Err::<Value, ParseError>(e),
            },
    {
        let number = self.parse_number();
        let unit = self.parse_identifier();
        let text = unit.as_str();
        let is_pixels = text.unicode_len() == 2 && (text.get_char(0) == 'p' || text.get_char(0) == 'P')
            && (text.get_char(1) == 'x' || text.get_char(1) == 'X');
        match number {
            Some(n) => {
                if is_pixels {
                    Ok(Value::Length(n, Unit::Px))
                } else {
                    Err(ParseError::DeclarationSyntax)
                }
            },
            None => Err(ParseError::DeclarationSyntax),
        }
    }

    /// Reads two digits of base sixteen.
    fn parse_hex_pair(&mut self) -> (r: Option<u8>)
        requires
            old(self).wf(),
        ensures
            final(self).wf(),
            final(self).input == old(self).input,
            r == hex_pair(old(self).input@, old(self).pos as int),
            r is Some ==> final(self).pos == old(self).pos + 2,
    {
        if self.chars.len() - self.pos < 2 {
            return None;
        }
        let high = hex_digit(self.consume_char());
        let low = hex_digit(self.consume_char());
        match (high, low) {
            (Some(h), Some(l)) => Some(h * 16 + l),
            _ => None,
        }
    }

    /// Reads a colour: `#` and two digits of base sixteen each for red,
    /// green and blue.
    fn parse_color(&mut self) -> (r: Result<Value, ParseError>)
        requires
            old(self).wf(),
            old(self).pos < old(self).input@.len(),
            old(self).input@[old(self).pos as int] == '#',
        ensures
            final(self).wf(),
            final(self).input == old(self).input,
            match value_at(old(self).input@, old(self).pos as int) {
                Ok((value, behind)) => r is Ok && r->Ok_0@ == value && final(self).pos == behind,
                Err(e) => r == Err::<Value, ParseError>(e),
            },
    {
        self.consume_char();
        let r = match self.parse_hex_pair() {
            Some(r) => r,
            None => {
                return Err(ParseError::DeclarationSyntax);
            },
        };
        let g = match self.parse_hex_pair() {
            Some(g) => g,
            None => {
                return Err(ParseError::DeclarationSyntax);
            },
        };
        let b = match self.parse_hex_pair() {
            Some(b) => b,
            None => {
                return Err(ParseError::DeclarationSyntax);
            },
        };
        Ok(Value::ColorValue(Color { r, g, b, a: 255 }))
    }

    /// Reads a value.
    fn parse_value(&mut self) -> (r: Result<Value, ParseError>)
        requires
            old(self).wf(),
        ensures
            final(self).wf(),
            final(self).input == old(self).input,
            match value_at(old(self).input@, old(self).pos as int) {
                Ok((value, behind)) => r is Ok && r->Ok_0@ == value && final(self).pos == behind,
                Err(e) => r == Err::<Value, ParseError>(e),
            },
    {
        if self.eof() {
            return Err(ParseError::DeclarationSyntax);
        }
        let c = self.next_char();
        if is_digit_char(c) {
            self.parse_length()
        } else if c == '#' {
            self.parse_color()
        } else {
            Ok(Value::Keyword(self.parse_identifier()))
        }
    }

    /// Reads one declaration, such as `margin: auto;`.
    fn parse_declaration(&mut self) -> (r: Result<Declaration, ParseError>)
        requires
            old(self).wf(),
        ensures
            final(self).wf(),
            final(self).input == old(self).input,
            match declaration_at(old(self).input@, old(self).pos as int) {
                Ok((declaration, behind)) => r is Ok && r->Ok_0@ == declaration && final(self).pos
                    == behind,
                Err(e) => r == Err::<Declaration, ParseError>(e),
            },
    {
        let name = self.parse_identifier();
        self.consume_whitespace();
        if self.eof() || self.next_char() != ':' {
            return Err(ParseError::DeclarationSyntax);
        }
        self.consume_char();
        self.consume_whitespace();
        let value = match self.parse_value() {
            Ok(value) => value,
            Err(e) => {
                return Err(e);
            },
        };
        self.consume_whitespace();
        if self.eof() || self.next_char() != ';' {
            return Err(ParseError::DeclarationSyntax);
        }
        self.consume_char();
        Ok(Declaration { name, value })
    }

    /// Reads a block of declarations, from `{` to `}`.
    pub fn parse_declarations(&mut self) -> (r: Result<Vec<Declaration>, ParseError>)
        requires
            old(self).wf(),
        ensures
            final(self).wf(),
            final(self).input == old(self).input,
            match block_at(old(self).input@, old(self).pos as int) {
                Ok((declarations, behind)) => r is Ok && declaration_models(r->Ok_0@) == declarations
                    && final(self).pos == behind,
                Err(e) => r == Err::<Vec<Declaration>, ParseError>(e),
            },
    {
        if self.eof() || self.next_char() != '{' {
            return Err(ParseError::DeclarationSyntax);
        }
        self.consume_char();
        let ghost start = self.pos;
        let mut declarations: Vec<Declaration> = Vec::new();
        let mut closed = false;
        assert(declaration_models(declarations@) =~= Seq::empty());
        while !closed
            invariant
                self.wf(),
                self.input == old(self).input,
                start == old(self).pos + 1,
                0 <= old(self).pos < self.input@.len(),
                self.input@[old(self).pos as int] == '{',
                !closed ==> declarations_at(self.input@, start as int, Seq::empty()) == declarations_at(
                    self.input@,
                    self.pos as int,
                    declaration_models(declarations@),
                ),
                closed ==> declarations_at(self.input@, start as int, Seq::empty()) == Ok::<
                    (Seq<DeclarationModel>, int),
                    ParseError,
                >((declaration_models(declarations@), self.pos as int)),
            decreases self.chars@.len() - self.pos, if closed { 0int } else { 1int },
        {
            self.consume_whitespace();
            if self.eof() {
                return Err(ParseError::DeclarationSyntax);
            }
            if self.next_char() == '}' {
                self.consume_char();
                closed = true;
            } else {
                let ghost before = declaration_models(declarations@);
                match self.parse_declaration() {
                    Ok(declaration) => {
                        declarations.push(declaration);
                        assert(declaration_models(declarations@) =~= before.push(declaration@));
                    },
                    Err(e) => {
                        return Err(e);
                    },
                }
            }
        }
        Ok(declarations)
    }

    /// Reads one rule: `<selectors> { <declarations> }`.
    pub fn parse_rule(&mut self) -> (r: Result<Rule, ParseError>)
        requires
            old(self).wf(),
        ensures
            final(self).wf(),
            final(self).input == old(self).input,
            match rule_at(old(self).input@, old(self).pos as int) {
                Ok((rule, behind)) => r is Ok && r->Ok_0@ == rule && r->Ok_0.is_ordered()
                    && final(self).pos == behind,
                Err(e) => r == Err::<Rule, ParseError>(e),
            },
    {
        let selectors = match self.parse_selectors() {
            Ok(selectors) => selectors,
            Err(e) => {
                return Err(e);
            },
        };
        let declarations = match self.parse_declarations() {
            Ok(declarations) => declarations,
            Err(e) => {
                return Err(e);
            },
        };
        let rule = Rule { selectors, declarations };
        proof {
            assert forall|i: int, j: int| 0 <= i <= j < rule.selectors@.len() implies !specificity_below(
                #[trigger] rule.selectors@[i].weight(),
                #[trigger] rule.selectors@[j].weight(),
            ) by {
                let models = selector_models(rule.selectors@);
                assert(models[i] == rule.selectors@[i]@ && models[j] == rule.selectors@[j]@);
                lemma_weight_of_view(rule.selectors@[i]);
                lemma_weight_of_view(rule.selectors@[j]);
            }
        }
        Ok(rule)
    }

    /// Reads rules up to the end of the input.
    pub fn parse_rules(&mut self) -> (r: Result<Vec<Rule>, ParseError>)
        requires
            old(self).wf(),
        ensures
            final(self).wf(),
            final(self).input == old(self).input,
            match rules_at(old(self).input@, old(self).pos as int, Seq::empty()) {
                Ok(rules) => r is Ok && rule_models(r->Ok_0@) == rules && forall|k: int|
                    0 <= k < r->Ok_0@.len() ==> (#[trigger] r->Ok_0@[k]).is_ordered(),
                Err(e) => r == Err::<Vec<Rule>, ParseError>(e),
            },
    {
        let mut rules: Vec<Rule> = Vec::new();
        let mut ended = false;
        assert(rule_models(rules@) =~= Seq::empty());
        while !ended
            invariant
                self.wf(),
                self.input == old(self).input,
                forall|k: int| 0 <= k < rules@.len() ==> (#[trigger] rules@[k]).is_ordered(),
                !ended ==> rules_at(self.input@, old(self).pos as int, Seq::empty()) == rules_at(
                    self.input@,
                    self.pos as int,
                    rule_models(rules@),
                ),
                ended ==> rules_at(self.input@, old(self).pos as int, Seq::empty()) == Ok::<
                    Seq<RuleModel>,
                    ParseError,
                >(rule_models(rules@)),
            decreases self.chars@.len() - self.pos, if ended { 0int } else { 1int },
        {
            self.consume_whitespace();
            if self.eof() {
                ended = true;
            } else {
                let ghost before = rule_models(rules@);
                let ghost here = self.pos as int;
                proof {
                    if rule_at(self.input@, here) is Ok {
                        lemma_selectors_end(self.input@, here, Seq::empty());
                        let brace = selectors_at(self.input@, here, Seq::empty())->Ok_0.1;
                        lemma_declarations_end(self.input@, brace + 1, Seq::empty());
                    }
                }
                match self.parse_rule() {
                    Ok(rule) => {
                        rules.push(rule);
                        assert(rule_models(rules@) =~= before.push(rule@));
                    },
                    Err(e) => {
                        return Err(e);
                    },
                }
            }
        }
        Ok(rules)
    }
}

/// A selector weighs what its contents say.
pub proof fn lemma_weight_of_view(selector: Selector)
    ensures
        selector.weight() == selector@.weight(),
{
}

/// Tests for a digit of ASCII.
pub fn is_digit_char(c: char) -> (r: bool)
    ensures
        r == is_digit(c),
{
    '0' <= c && c <= '9'
}

/// What a digit of base sixteen counts.
pub fn hex_digit(c: char) -> (r: Option<u8>)
    ensures
        r == hex_of(c),
{
    if '0' <= c && c <= '9' {
        Some((c as u32 - '0' as u32) as u8)
    } else if 'a' <= c && c <= 'f' {
        Some((c as u32 - 'a' as u32 + 10) as u8)
    } else if 'A' <= c && c <= 'F' {
        Some((c as u32 - 'A' as u32 + 10) as u8)
    } else {
        None
    }
}

/// Reads a whole stylesheet.
pub fn parse(source: String) -> (r: Result<Stylesheet, ParseError>)
    ensures
        match rules_at(source@, 0, Seq::empty()) {
            Ok(rules) => r is Ok && r->Ok_0@ == rules && forall|k: int|
                0 <= k < r->Ok_0.rules@.len() ==> (#[trigger] r->Ok_0.rules@[k]).is_ordered(),
            Err(e) => r == Err::<Stylesheet, ParseError>(e),
        },
{
    let mut parser = Parser::new(source);
    match parser.parse_rules() {
        Ok(rules) => Ok(Stylesheet { rules }),
        Err(e) => Err(e),
    }
}

} // verus!
