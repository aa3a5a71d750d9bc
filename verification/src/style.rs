//! The cascade: which declarations of a stylesheet hold for each node of a
//! document, and the styled tree that records them.

use vstd::prelude::*;
use vstd::hash_map::StringHashMap;
use crate::css::{same_text, Rule, Selector, SimpleSelector, Specificity, Stylesheet, Value};
use crate::css::{is_below, specificity_below};
use crate::dom::{ElementData, Node, NodeType};

verus! {

/// The resolved properties of one node: at most one value for a name.
pub struct PropertyMap {
    map: StringHashMap<Value>,
}

impl View for PropertyMap {
    type V = Map<Seq<char>, Value>;

    closed spec fn view(&self) -> Map<Seq<char>, Value> {
        self.map@
    }
}

impl PropertyMap {
    /// A map without properties.
    pub fn new() -> (r: PropertyMap)
        ensures
            r@ == Map::<Seq<char>, Value>::empty(),
    {
        PropertyMap { map: StringHashMap::new() }
    }

    /// Gives property `name` the value `value`, in place of what it had.
    pub fn insert(&mut self, name: String, value: Value)
        ensures
            final(self)@ == old(self)@.insert(name@, value),
    {
        self.map.insert(name, value);
    }

    /// The value of property `name`, if it has one.
    pub fn get(&self, name: &str) -> (r: Option<&Value>)
        ensures
            r == (if self@.contains_key(name@) {
                Some(&self@[name@])
            } else {
                None
            }),
    {
        self.map.get(name)
    }

    /// The number of properties.
    pub fn len(&self) -> (r: usize)
        ensures
            r == self@.len(),
    {
        broadcast use vstd::hash_map::group_hash_map_axioms;
        self.map.len()
    }
}

/// How a node takes part in layout.
#[derive(Clone, Copy, Debug, PartialEq, Eq, Structural)]
pub enum Display {
    Inline,
    Block,
    /// The node and what is below it leave no box.
    DisplayNone,
}

/// What the property `display` of `values` asks for: `block` and `none` by
/// their keywords, inline in every other case.
pub open spec fn display_of(values: Map<Seq<char>, Value>) -> Display {
    if values.contains_key("display"@) {
        match values["display"@] {
            Value::Keyword(s) => if s@ == "block"@ {
                Display::Block
            } else if s@ == "none"@ {
                Display::DisplayNone
            } else {
                Display::Inline
            },
            _ => Display::Inline,
        }
    } else {
        Display::Inline
    }
}

/// The value that `lookup` finds: that of `name`, else that of `fallback`,
/// else `default`.
pub open spec fn looked_up(
    values: Map<Seq<char>, Value>,
    name: Seq<char>,
    fallback: Seq<char>,
    default: Value,
) -> Value {
    if values.contains_key(name) {
        values[name]
    } else if values.contains_key(fallback) {
        values[fallback]
    } else {
        default
    }
}

/// A node of the document with the properties that hold for it.
pub struct StyledNode<'a> {
    /// The node of the document that this one mirrors.
    pub node: &'a Node,
    pub specified_values: PropertyMap,
    pub children: Vec<StyledNode<'a>>,
}

/// What a styled tree holds.
pub struct StyledModel {
    pub node: Node,
    pub values: Map<Seq<char>, Value>,
    pub children: Seq<StyledModel>,
}

impl<'a> View for StyledNode<'a> {
    type V = StyledModel;

    open spec fn view(&self) -> StyledModel
        decreases self,
    {
        StyledModel {
            node: *self.node,
            values: self.specified_values@,
            children: Seq::new(
                self.children@.len(),
                |i: int|
                    if 0 <= i < self.children@.len() {
                        self.children@[i]@
                    } else {
                        arbitrary()
                    },
            ),
        }
    }
}

impl<'a> StyledNode<'a> {
    /// The value of property `name`, if the node has one.
    pub fn value(&self, name: &str) -> (r: Option<Value>)
        ensures
            r == (if self@.values.contains_key(name@) {
                Some(self@.values[name@])
            } else {
                None
            }),
    {
        match self.specified_values.get(name) {
            Some(v) => Some(v.clone()),
            None => None,
        }
    }

    /// The value of property `name`, or else that of `fallback_name`, or
    /// else `default`.
    pub fn lookup(&self, name: &str, fallback_name: &str, default: &Value) -> (r: Value)
        ensures
            r == looked_up(self@.values, name@, fallback_name@, *default),
    {
        match self.specified_values.get(name) {
            Some(v) => v.clone(),
            None => match self.specified_values.get(fallback_name) {
                Some(v) => v.clone(),
                None => default.clone(),
            },
        }
    }

    /// How this node takes part in layout.
    pub fn display(&self) -> (r: Display)
        ensures
            r == display_of(self@.values),
    {
        match self.specified_values.get("display") {
            Some(Value::Keyword(s)) => {
                if same_text(s.as_str(), "block") {
                    Display::Block
                } else if same_text(s.as_str(), "none") {
                    Display::DisplayNone
                } else {
                    Display::Inline
                }
            },
            _ => Display::Inline,
        }
    }
}

/// Whether `selector` holds of `elem`: its tag, if it names one, is the
/// element's; its id, if it names one, is the element's; and each of its
/// classes is one of the element's.
pub open spec fn simple_matches(elem: &ElementData, selector: &SimpleSelector) -> bool {
    &&& selector.tag_name matches Some(t) ==> elem.tag_name@ == t@
    &&& selector.id matches Some(i) ==> elem.attributes@.contains_key("id"@)
        && elem.attributes@["id"@] == i@
    &&& forall|k: int|
        0 <= k < selector.class@.len() ==> elem.class_set().contains(
            #[trigger] selector.class@[k]@,
        )
}

pub open spec fn selector_matches(elem: &ElementData, selector: &Selector) -> bool {
    match *selector {
        Selector::Simple(simple) => simple_matches(elem, &simple),
    }
}

fn holds_text(list: &Vec<String>, text: &String) -> (r: bool)
    ensures
        r == exists|k: int| 0 <= k < list@.len() && #[trigger] list@[k]@ == text@,
{
    let mut i: usize = 0;
    while i < list.len()
        invariant
            0 <= i <= list@.len(),
            forall|k: int| 0 <= k < i ==> #[trigger] list@[k]@ != text@,
        decreases list@.len() - i,
    {
        if list[i] == *text {
            return true;
        }
        i = i + 1;
    }
    false
}

pub fn matches_simple_selector(elem: &ElementData, selector: &SimpleSelector) -> (r: bool)
    ensures
        r == simple_matches(elem, selector),
{
    match &selector.tag_name {
        Some(name) => {
            if elem.tag_name != *name {
                return false;
            }
        },
        None => {},
    }
    match &selector.id {
        Some(id) => {
            match elem.id() {
                Some(v) => {
                    if *v != *id {
                        return false;
                    }
                },
                None => {
                    return false;
                },
            }
        },
        None => {},
    }
    let elem_classes = elem.classes();
    let mut i: usize = 0;
    while i < selector.class.len()
        invariant
            0 <= i <= selector.class@.len(),
            forall|k: int|
                0 <= k < elem_classes@.len() ==> elem.class_set().contains(
                    #[trigger] elem_classes@[k]@,
                ),
            forall|w: Seq<char>|
                elem.class_set().contains(w) ==> exists|k: int|
                    0 <= k < elem_classes@.len() && #[trigger] elem_classes@[k]@ == w,
            forall|k: int|
                0 <= k < i ==> elem.class_set().contains(#[trigger] selector.class@[k]@),
        decreases selector.class@.len() - i,
    {
        if !holds_text(&elem_classes, &selector.class[i]) {
            assert(!elem.class_set().contains(selector.class@[i as int]@));
            return false;
        }
        i = i + 1;
    }
    true
}

pub fn matches(elem: &ElementData, selector: &Selector) -> (r: bool)
    ensures
        r == selector_matches(elem, selector),
{
    match selector {
        Selector::Simple(simple_selector) => matches_simple_selector(elem, simple_selector),
    }
}


/// The place of the first selector, from place `from` on, that holds of
/// `elem`.
pub open spec fn first_match(elem: &ElementData, selectors: Seq<Selector>, from: int) -> Option<int>
    decreases selectors.len() - from,
{
    if from < 0 || from >= selectors.len() {
        None
    } else if selector_matches(elem, &selectors[from]) {
        Some(from)
    } else {
        first_match(elem, selectors, from + 1)
    }
}

/// What `rule` weighs for `elem`: the weight of the first of its selectors
/// that holds of the element; nothing where none does.
pub open spec fn matched_weight(elem: &ElementData, rule: &Rule) -> Option<Specificity> {
    match first_match(elem, rule.selectors@, 0) {
        Some(i) => Some(rule.selectors@[i].weight()),
        None => None,
    }
}

proof fn lemma_first_match_from(elem: &ElementData, selectors: Seq<Selector>, from: int, i: int)
    requires
        0 <= from <= i < selectors.len(),
        selector_matches(elem, &selectors[i]),
        forall|j: int| from <= j < i ==> !selector_matches(elem, &#[trigger] selectors[j]),
    ensures
        first_match(elem, selectors, from) == Some(i),
    decreases i - from,
{
    if from < i {
        lemma_first_match_from(elem, selectors, from + 1, i);
    }
}

proof fn lemma_first_match_none(elem: &ElementData, selectors: Seq<Selector>, from: int)
    requires
        0 <= from,
        forall|j: int| from <= j < selectors.len() ==> !selector_matches(elem, &#[trigger] selectors[j]),
    ensures
        first_match(elem, selectors, from) is None,
    decreases selectors.len() - from,
{
    if from < selectors.len() {
        lemma_first_match_none(elem, selectors, from + 1);
    }
}

/// A rule weighs, for an element, what the first of its selectors that
/// holds of the element weighs: neither the heaviest of the rule nor any
/// selector that stands before it and does not hold.
pub proof fn lemma_first_matching_selector_decides(elem: &ElementData, rule: &Rule, i: int)
    requires
        0 <= i < rule.selectors@.len(),
        selector_matches(elem, &rule.selectors@[i]),
        forall|j: int| 0 <= j < i ==> !selector_matches(elem, &#[trigger] rule.selectors@[j]),
    ensures
        matched_weight(elem, rule) == Some(rule.selectors@[i].weight()),
{
    lemma_first_match_from(elem, rule.selectors@, 0, i);
}

/// A rule none of whose selectors holds of an element weighs nothing for it.
pub proof fn lemma_no_selector_no_weight(elem: &ElementData, rule: &Rule)
    requires
        forall|j: int|
            0 <= j < rule.selectors@.len() ==> !selector_matches(elem, &#[trigger] rule.selectors@[j]),
    ensures
        matched_weight(elem, rule) is None,
{
    lemma_first_match_none(elem, rule.selectors@, 0);
}

/// A rule that holds of an element, with its weight there.
pub type MatchedRule<'a> = (Specificity, &'a Rule);

/// The rule with its weight for `elem`, if one of its selectors holds.
pub fn match_rule<'a>(elem: &ElementData, rule: &'a Rule) -> (r: Option<MatchedRule<'a>>)
    ensures
        r == (match matched_weight(elem, rule) {
            Some(w) => Some((w, rule)),
            None => None,
        }),
{
    let mut i: usize = 0;
    while i < rule.selectors.len()
        invariant
            0 <= i <= rule.selectors@.len(),
            first_match(elem, rule.selectors@, 0) == first_match(elem, rule.selectors@, i as int),
        decreases rule.selectors@.len() - i,
    {
        if matches(elem, &rule.selectors[i]) {
            return Some((rule.selectors[i].specificity(), rule));
        }
        i = i + 1;
    }
    None
}

/// A rule that holds of an element: its weight there and its place in the
/// stylesheet.
#[derive(Clone, Copy)]
struct Ranked {
    weight: Specificity,
    position: usize,
}

/// The order in which rules are applied: by weight, and among equal weights
/// by place in the stylesheet.
spec fn precedes(a: Ranked, b: Ranked) -> bool {
    specificity_below(a.weight, b.weight) || (a.weight == b.weight && a.position < b.position)
}

spec fn ranked_in(elem: &ElementData, sheet: &Stylesheet, x: Ranked) -> bool {
    x.position < sheet.rules@.len() && matched_weight(elem, &sheet.rules@[x.position as int])
        == Some(x.weight)
}

/// The rules of the stylesheet that hold of `elem`, in the order of the
/// stylesheet.
fn matching_rules(elem: &ElementData, stylesheet: &Stylesheet) -> (r: Vec<Ranked>)
    ensures
        forall|k: int| 0 <= k < r@.len() ==> ranked_in(elem, stylesheet, #[trigger] r@[k]),
        forall|j: int, k: int| 0 <= j < k < r@.len() ==> r@[j].position < r@[k].position,
        forall|p: int|
            0 <= p < stylesheet.rules@.len() && matched_weight(
                elem,
                &#[trigger] stylesheet.rules@[p],
            ) is Some ==> exists|k: int| 0 <= k < r@.len() && #[trigger] r@[k].position == p,
{
    let mut out: Vec<Ranked> = Vec::new();
    let mut p: usize = 0;
    while p < stylesheet.rules.len()
        invariant
            0 <= p <= stylesheet.rules@.len(),
            forall|k: int| 0 <= k < out@.len() ==> ranked_in(elem, stylesheet, #[trigger] out@[k]),
            forall|k: int| 0 <= k < out@.len() ==> (#[trigger] out@[k]).position < p,
            forall|j: int, k: int| 0 <= j < k < out@.len() ==> out@[j].position < out@[k].position,
            forall|q: int|
                0 <= q < p && matched_weight(elem, &#[trigger] stylesheet.rules@[q]) is Some
                    ==> exists|k: int| 0 <= k < out@.len() && #[trigger] out@[k].position == q,
        decreases stylesheet.rules@.len() - p,
    {
        match match_rule(elem, &stylesheet.rules[p]) {
            Some(found) => {
                let ghost before = out@;
                out.push(Ranked { weight: found.0, position: p });
                assert(forall|k: int| 0 <= k < before.len() ==> out@[k] == before[k]);
                assert forall|q: int|
                    0 <= q < p + 1 && matched_weight(elem, &#[trigger] stylesheet.rules@[q]) is Some
                    implies exists|k: int| 0 <= k < out@.len() && #[trigger] out@[k].position == q by {
                    if q == p {
                        assert(out@[before.len() as int].position == q);
                    }
                }
            },
            None => {},
        }
        p = p + 1;
    }
    out
}

fn is_before(a: Ranked, b: Ranked) -> (r: bool)
    ensures
        r == precedes(a, b),
{
    is_below(a.weight, b.weight) || (a.weight.0 == b.weight.0 && a.weight.1 == b.weight.1
        && a.weight.2 == b.weight.2 && a.position < b.position)
}

/// The rules of `v` in the order in which they are applied.
fn sort_ranked(v: Vec<Ranked>) -> (r: Vec<Ranked>)
    requires
        forall|j: int, k: int| 0 <= j < k < v@.len() ==> v@[j].position != v@[k].position,
    ensures
        forall|j: int, k: int| 0 <= j < k < r@.len() ==> precedes(r@[j], r@[k]),
        forall|k: int| 0 <= k < r@.len() ==> v@.contains(#[trigger] r@[k]),
        forall|k: int| 0 <= k < v@.len() ==> r@.contains(#[trigger] v@[k]),
{
    let mut out: Vec<Ranked> = Vec::new();
    let mut i: usize = 0;
    while i < v.len()
        invariant
            0 <= i <= v@.len(),
            forall|j: int, k: int| 0 <= j < k < v@.len() ==> v@[j].position != v@[k].position,
            forall|j: int, k: int| 0 <= j < k < out@.len() ==> precedes(out@[j], out@[k]),
            forall|k: int|
                0 <= k < out@.len() ==> exists|j: int| 0 <= j < i && v@[j] == #[trigger] out@[k],
            forall|k: int| 0 <= k < i ==> out@.contains(#[trigger] v@[k]),
        decreases v@.len() - i,
    {
        let x = v[i];
        let mut p: usize = 0;
        while p < out.len() && is_before(out[p], x)
            invariant
                0 <= p <= out@.len(),
                forall|k: int| 0 <= k < p ==> precedes(#[trigger] out@[k], x),
            decreases out@.len() - p,
        {
            p = p + 1;
        }
        let ghost before = out@;
        out.insert(p, x);
        proof {
            assert(forall|k: int| 0 <= k < p ==> out@[k] == before[k]);
            assert(out@[p as int] == x);
            assert forall|k: int| p <= k < before.len() implies precedes(x, #[trigger] before[k]) by {
                if p < k {
                    assert(precedes(before[p as int], before[k]));
                }
            }
            assert forall|k: int| 0 <= k < i + 1 implies out@.contains(#[trigger] v@[k]) by {
                if k < i {
                    let q = choose|q: int| 0 <= q < before.len() && before[q] == v@[k];
                    if q >= p {
                        assert(out@[q + 1] == v@[k]);
                    }
                }
            }
        }
        i = i + 1;
    }
    out
}


/// Declaration `d` of rule `r` holds of `elem` and sets property `name`.
pub open spec fn declares(
    elem: &ElementData,
    sheet: &Stylesheet,
    r: int,
    d: int,
    name: Seq<char>,
) -> bool {
    &&& 0 <= r < sheet.rules@.len()
    &&& matched_weight(elem, &sheet.rules@[r]) is Some
    &&& 0 <= d < sheet.rules@[r].declarations@.len()
    &&& sheet.rules@[r].declarations@[d].name@ == name
}

/// Declaration `d` of rule `r` has the last word over declaration `d2` of
/// rule `r2`: its rule weighs more for `elem`; or as much, and stands later
/// in the stylesheet; or both are of one rule and `d` is not the earlier.
pub open spec fn overrides(
    elem: &ElementData,
    sheet: &Stylesheet,
    r: int,
    d: int,
    r2: int,
    d2: int,
) -> bool {
    let w = matched_weight(elem, &sheet.rules@[r])->0;
    let w2 = matched_weight(elem, &sheet.rules@[r2])->0;
    specificity_below(w2, w) || (w2 == w && (r2 < r || (r2 == r && d2 <= d)))
}

/// Declaration `d` of rule `r` decides property `name` for `elem`: it sets
/// the property and has the last word over every declaration that does.
pub open spec fn wins(
    elem: &ElementData,
    sheet: &Stylesheet,
    r: int,
    d: int,
    name: Seq<char>,
) -> bool {
    &&& declares(elem, sheet, r, d, name)
    &&& forall|r2: int, d2: int| #[trigger]
        declares(elem, sheet, r2, d2, name) ==> overrides(elem, sheet, r, d, r2, d2)
}

/// The properties of `elem` under `sheet`: each property that a rule holding
/// of the element sets, with the value of the declaration that decides it.
pub open spec fn cascade(elem: &ElementData, sheet: &Stylesheet) -> Map<Seq<char>, Value> {
    Map::new(
        |name: Seq<char>| exists|r: int, d: int| #[trigger] declares(elem, sheet, r, d, name),
        |name: Seq<char>|
            {
                let (r, d) = choose|r: int, d: int| #[trigger] wins(elem, sheet, r, d, name);
                sheet.rules@[r].declarations@[d].value
            },
    )
}

/// At most one declaration decides a property.
pub proof fn lemma_one_winner(
    elem: &ElementData,
    sheet: &Stylesheet,
    name: Seq<char>,
    r: int,
    d: int,
    r2: int,
    d2: int,
)
    requires
        wins(elem, sheet, r, d, name),
        wins(elem, sheet, r2, d2, name),
    ensures
        r == r2,
        d == d2,
{
}

/// The cascade gives a property the value of the declaration that decides
/// it.
pub proof fn lemma_cascade_takes_winner(
    elem: &ElementData,
    sheet: &Stylesheet,
    name: Seq<char>,
    r: int,
    d: int,
)
    requires
        wins(elem, sheet, r, d, name),
    ensures
        cascade(elem, sheet).contains_key(name),
        cascade(elem, sheet)[name] == sheet.rules@[r].declarations@[d].value,
{
    let (r2, d2) = choose|r2: int, d2: int| #[trigger] wins(elem, sheet, r2, d2, name);
    lemma_one_winner(elem, sheet, name, r, d, r2, d2);
}

/// The place of the last among the first `n` declarations of rule `r` that
/// sets `name`; -1 where none does.
pub open spec fn last_setting(sheet: &Stylesheet, r: int, name: Seq<char>, n: nat) -> int
    decreases n,
{
    if n == 0 {
        -1
    } else if sheet.rules@[r].declarations@[n - 1].name@ == name {
        n - 1
    } else {
        last_setting(sheet, r, name, (n - 1) as nat)
    }
}

proof fn lemma_last_setting(sheet: &Stylesheet, r: int, name: Seq<char>, n: nat)
    requires
        0 <= r < sheet.rules@.len(),
        n <= sheet.rules@[r].declarations@.len(),
    ensures
        -1 <= last_setting(sheet, r, name, n) < n,
        last_setting(sheet, r, name, n) >= 0 ==> sheet.rules@[r].declarations@[last_setting(
            sheet,
            r,
            name,
            n,
        )].name@ == name,
        forall|d: int|
            last_setting(sheet, r, name, n) < d < n ==> (#[trigger] sheet.rules@[r].declarations@[d]).name@
                != name,
    decreases n,
{
    if n > 0 && sheet.rules@[r].declarations@[n - 1].name@ != name {
        lemma_last_setting(sheet, r, name, (n - 1) as nat);
    }
}

/// The place of the rule, among the first `n` of the stylesheet, that
/// decides `name` for `elem`; -1 where none of them sets it.
pub open spec fn leading_rule(
    elem: &ElementData,
    sheet: &Stylesheet,
    name: Seq<char>,
    n: nat,
) -> int
    decreases n,
{
    if n == 0 {
        -1
    } else {
        let before = leading_rule(elem, sheet, name, (n - 1) as nat);
        let r = n - 1;
        let weight = matched_weight(elem, &sheet.rules@[r]);
        if weight is Some && last_setting(sheet, r, name, sheet.rules@[r].declarations@.len()) >= 0
            && (before < 0 || !specificity_below(
            weight->0,
            matched_weight(elem, &sheet.rules@[before])->0,
        )) {
            r
        } else {
            before
        }
    }
}

proof fn lemma_leading_rule(elem: &ElementData, sheet: &Stylesheet, name: Seq<char>, n: nat)
    requires
        n <= sheet.rules@.len(),
    ensures
        -1 <= leading_rule(elem, sheet, name, n) < n,
        leading_rule(elem, sheet, name, n) < 0 ==> forall|r: int, d: int|
            #[trigger] declares(elem, sheet, r, d, name) ==> r >= n,
        leading_rule(elem, sheet, name, n) >= 0 ==> ({
            let b = leading_rule(elem, sheet, name, n);
            let at = last_setting(sheet, b, name, sheet.rules@[b].declarations@.len());
            &&& declares(elem, sheet, b, at, name)
            &&& forall|r: int, d: int|
                #[trigger] declares(elem, sheet, r, d, name) && r < n ==> overrides(
                    elem,
                    sheet,
                    b,
                    at,
                    r,
                    d,
                )
        }),
    decreases n,
{
    if n > 0 {
        let r = n - 1;
        let before = leading_rule(elem, sheet, name, (n - 1) as nat);
        let b = leading_rule(elem, sheet, name, n);
        lemma_leading_rule(elem, sheet, name, (n - 1) as nat);
        lemma_last_setting(sheet, r, name, sheet.rules@[r].declarations@.len());
        if b >= 0 {
            let at = last_setting(sheet, b, name, sheet.rules@[b].declarations@.len());
            assert forall|r2: int, d2: int|
                #[trigger] declares(elem, sheet, r2, d2, name) && r2 < n implies overrides(
                elem,
                sheet,
                b,
                at,
                r2,
                d2,
            ) by {
                if r2 < r && before >= 0 {
                    let old_at = last_setting(sheet, before, name, sheet.rules@[before].declarations@.len());
                    assert(overrides(elem, sheet, before, old_at, r2, d2));
                }
            }
        }
    }
}

/// Every property that a rule holding of the element sets has a
/// declaration that decides it.
pub proof fn lemma_declared_property_has_winner(
    elem: &ElementData,
    sheet: &Stylesheet,
    name: Seq<char>,
)
    requires
        exists|r: int, d: int| #[trigger] declares(elem, sheet, r, d, name),
    ensures
        exists|r: int, d: int| #[trigger] wins(elem, sheet, r, d, name),
{
    let n = sheet.rules@.len();
    lemma_leading_rule(elem, sheet, name, n);
    let b = leading_rule(elem, sheet, name, n);
    let at = last_setting(sheet, b, name, sheet.rules@[b].declarations@.len());
    assert(wins(elem, sheet, b, at, name));
}

spec fn well_ranked(elem: &ElementData, sheet: &Stylesheet, order: Seq<Ranked>) -> bool {
    &&& forall|k: int| 0 <= k < order.len() ==> ranked_in(elem, sheet, #[trigger] order[k])
    &&& forall|j: int, k: int| 0 <= j < k < order.len() ==> precedes(order[j], order[k])
    &&& forall|p: int|
        0 <= p < sheet.rules@.len() && matched_weight(elem, &#[trigger] sheet.rules@[p]) is Some
            ==> exists|k: int| 0 <= k < order.len() && #[trigger] order[k].position == p
}

/// Declaration `d` of rule `r` is among those applied once the rules
/// `order[..k]` and the first `m` declarations of rule `order[k]` are.
spec fn applied(order: Seq<Ranked>, k: int, m: int, r: int, d: int) -> bool {
    (exists|j: int| 0 <= j < k && j < order.len() && #[trigger] order[j].position == r) || (0 <= k
        < order.len() && order[k].position == r && d < m)
}

spec fn leads(
    elem: &ElementData,
    sheet: &Stylesheet,
    order: Seq<Ranked>,
    k: int,
    m: int,
    r: int,
    d: int,
    name: Seq<char>,
) -> bool {
    &&& declares(elem, sheet, r, d, name)
    &&& applied(order, k, m, r, d)
    &&& forall|r2: int, d2: int|
        #[trigger] declares(elem, sheet, r2, d2, name) && applied(order, k, m, r2, d2)
            ==> overrides(elem, sheet, r, d, r2, d2)
}

spec fn cascaded_so_far(
    elem: &ElementData,
    sheet: &Stylesheet,
    order: Seq<Ranked>,
    k: int,
    m: int,
    values: Map<Seq<char>, Value>,
) -> bool {
    &&& forall|name: Seq<char>| #[trigger]
        values.contains_key(name) ==> exists|r: int, d: int| #[trigger]
            leads(elem, sheet, order, k, m, r, d, name) && values[name]
                == sheet.rules@[r].declarations@[d].value
    &&& forall|r: int, d: int, name: Seq<char>|
        #[trigger] declares(elem, sheet, r, d, name) && applied(order, k, m, r, d)
            ==> values.contains_key(name)
}

proof fn lemma_apply_step(
    elem: &ElementData,
    sheet: &Stylesheet,
    order: Seq<Ranked>,
    k: int,
    m: int,
    values: Map<Seq<char>, Value>,
)
    requires
        well_ranked(elem, sheet, order),
        0 <= k < order.len(),
        0 <= m < sheet.rules@[order[k].position as int].declarations@.len(),
        cascaded_so_far(elem, sheet, order, k, m, values),
    ensures
        cascaded_so_far(
            elem,
            sheet,
            order,
            k,
            m + 1,
            values.insert(
                sheet.rules@[order[k].position as int].declarations@[m].name@,
                sheet.rules@[order[k].position as int].declarations@[m].value,
            ),
        ),
{
    let r0 = order[k].position as int;
    let decl = sheet.rules@[r0].declarations@[m];
    let name0 = decl.name@;
    let after = values.insert(name0, decl.value);
    assert forall|r: int, d: int| applied(order, k, m, r, d) implies applied(order, k, m + 1, r, d) by {}
    assert forall|r: int, d: int| applied(order, k, m + 1, r, d) implies applied(order, k, m, r, d)
        || (r == r0 && d == m) by {}
    assert forall|name: Seq<char>| #[trigger] after.contains_key(name) implies exists|r: int, d: int| #[trigger]
        leads(elem, sheet, order, k, m + 1, r, d, name) && after[name]
            == sheet.rules@[r].declarations@[d].value by {
        if name == name0 {
            assert forall|r2: int, d2: int|
                #[trigger] declares(elem, sheet, r2, d2, name) && applied(order, k, m + 1, r2, d2)
                implies overrides(elem, sheet, r0, m, r2, d2) by {
                if !(r2 == r0 && d2 <= m) {
                    let j = choose|j: int| 0 <= j < k && j < order.len() && #[trigger] order[j].position == r2;
                    assert(precedes(order[j], order[k]));
                }
            }
            assert(leads(elem, sheet, order, k, m + 1, r0, m, name));
        } else {
            let (r, d) = choose|r: int, d: int| #[trigger]
                leads(elem, sheet, order, k, m, r, d, name) && values[name]
                    == sheet.rules@[r].declarations@[d].value;
            assert(leads(elem, sheet, order, k, m + 1, r, d, name));
        }
    }
}

proof fn lemma_next_rule(
    elem: &ElementData,
    sheet: &Stylesheet,
    order: Seq<Ranked>,
    k: int,
    values: Map<Seq<char>, Value>,
)
    requires
        well_ranked(elem, sheet, order),
        0 <= k < order.len(),
        cascaded_so_far(
            elem,
            sheet,
            order,
            k,
            sheet.rules@[order[k].position as int].declarations@.len() as int,
            values,
        ),
    ensures
        cascaded_so_far(elem, sheet, order, k + 1, 0, values),
{
    let len = sheet.rules@[order[k].position as int].declarations@.len() as int;
    assert forall|r: int, d: int, name: Seq<char>| #[trigger]
        declares(elem, sheet, r, d, name) implies (applied(order, k, len, r, d) <==> applied(
        order,
        k + 1,
        0,
        r,
        d,
    )) by {
        if applied(order, k + 1, 0, r, d) {
            let j = choose|j: int| 0 <= j < k + 1 && j < order.len() && #[trigger] order[j].position == r;
            assert(order[j].position == r);
        }
    }
    assert forall|name: Seq<char>| #[trigger] values.contains_key(name) implies exists|r: int, d: int| #[trigger]
        leads(elem, sheet, order, k + 1, 0, r, d, name) && values[name]
            == sheet.rules@[r].declarations@[d].value by {
        let (r, d) = choose|r: int, d: int| #[trigger]
            leads(elem, sheet, order, k, len, r, d, name) && values[name]
                == sheet.rules@[r].declarations@[d].value;
        assert(leads(elem, sheet, order, k + 1, 0, r, d, name));
    }
}

proof fn lemma_cascade_done(
    elem: &ElementData,
    sheet: &Stylesheet,
    order: Seq<Ranked>,
    values: Map<Seq<char>, Value>,
)
    requires
        well_ranked(elem, sheet, order),
        cascaded_so_far(elem, sheet, order, order.len() as int, 0, values),
    ensures
        values == cascade(elem, sheet),
{
    let n = order.len() as int;
    let target = cascade(elem, sheet);
    assert forall|name: Seq<char>| values.contains_key(name) implies target.contains_key(name)
        && target[name] == values[name] by {
        let (r, d) = choose|r: int, d: int| #[trigger]
            leads(elem, sheet, order, n, 0, r, d, name) && values[name]
                == sheet.rules@[r].declarations@[d].value;
        lemma_cascade_takes_winner(elem, sheet, name, r, d);
    }
}

/// Resolves the properties of one element: the rules that hold of it are
/// applied from the lightest to the heaviest, each declaration writing over
/// what was there for its property.
pub fn specified_values(elem: &ElementData, stylesheet: &Stylesheet) -> (r: PropertyMap)
    ensures
        r@ == cascade(elem, stylesheet),
{
    let mut values = PropertyMap::new();
    let rules = sort_ranked(matching_rules(elem, stylesheet));
    let mut k: usize = 0;
    while k < rules.len()
        invariant
            0 <= k <= rules@.len(),
            well_ranked(elem, stylesheet, rules@),
            cascaded_so_far(elem, stylesheet, rules@, k as int, 0, values@),
        decreases rules@.len() - k,
    {
        let rule = &stylesheet.rules[rules[k].position];
        let mut m: usize = 0;
        while m < rule.declarations.len()
            invariant
                0 <= k < rules@.len(),
                well_ranked(elem, stylesheet, rules@),
                *rule == stylesheet.rules@[rules@[k as int].position as int],
                0 <= m <= rule.declarations@.len(),
                cascaded_so_far(elem, stylesheet, rules@, k as int, m as int, values@),
            decreases rule.declarations@.len() - m,
        {
            let declaration = &rule.declarations[m];
            proof {
                lemma_apply_step(elem, stylesheet, rules@, k as int, m as int, values@);
            }
            values.insert(declaration.name.clone(), declaration.value.clone());
            m = m + 1;
        }
        proof {
            lemma_next_rule(elem, stylesheet, rules@, k as int, values@);
        }
        k = k + 1;
    }
    proof {
        lemma_cascade_done(elem, stylesheet, rules@, values@);
    }
    values
}

/// The styled tree of `node` under `sheet`: node for node the shape of the
/// document, an element with its cascade, a text without properties.
pub open spec fn styled(node: &Node, sheet: &Stylesheet) -> StyledModel
    decreases node,
{
    StyledModel {
        node: *node,
        values: match node.node_type {
            NodeType::Element(elem) => cascade(&elem, sheet),
            NodeType::Text(_) => Map::empty(),
        },
        children: Seq::new(
            node.children@.len(),
            |i: int|
                if 0 <= i < node.children@.len() {
                    styled(&node.children@[i], sheet)
                } else {
                    arbitrary()
                },
        ),
    }
}

/// Applies a stylesheet to a whole document.
pub fn style_tree<'a>(root: &'a Node, stylesheet: &'a Stylesheet) -> (r: StyledNode<'a>)
    ensures
        r@ == styled(root, stylesheet),
    decreases root,
{
    let specified = match &root.node_type {
        NodeType::Element(elem) => specified_values(elem, stylesheet),
        NodeType::Text(_) => PropertyMap::new(),
    };
    let mut children: Vec<StyledNode<'a>> = Vec::new();
    let mut i: usize = 0;
    while i < root.children.len()
        invariant
            0 <= i <= root.children@.len(),
            children@.len() == i,
            forall|j: int| 0 <= j < i ==> (#[trigger] children@[j])@ == styled(&root.children@[j], stylesheet),
        decreases root.children@.len() - i,
    {
        let child = style_tree(&root.children[i], stylesheet);
        children.push(child);
        i = i + 1;
    }
    let r = StyledNode { node: root, specified_values: specified, children };
    assert(r@.children =~= styled(root, stylesheet).children);
    r
}

} // verus!
