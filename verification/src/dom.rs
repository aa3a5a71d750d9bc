//! The document tree: text and elements with their attributes.

use vstd::prelude::*;
use vstd::hash_map::StringHashMap;
use vstd::std_specs::iter::IteratorSpec;

verus! {

/// The attributes of an element, name to value.
pub struct AttrMap {
    map: StringHashMap<String>,
}

impl View for AttrMap {
    type V = Map<Seq<char>, Seq<char>>;

    closed spec fn view(&self) -> Map<Seq<char>, Seq<char>> {
        self.map@.map_values(|s: String| s@)
    }
}

impl AttrMap {
    /// A map without attributes.
    pub fn new() -> (r: AttrMap)
        ensures
            r@ == Map::<Seq<char>, Seq<char>>::empty(),
    {
        AttrMap { map: StringHashMap::new() }
    }

    /// Sets attribute `name` to `value`, in place of what it had.
    pub fn insert(&mut self, name: String, value: String)
        ensures
            final(self)@ == old(self)@.insert(name@, value@),
    {
        self.map.insert(name, value);
    }

    /// The value of attribute `name`, if the element has it.
    pub fn get(&self, name: &str) -> (r: Option<&String>)
        ensures
            match r {
                Some(v) => self@.contains_key(name@) && self@[name@] == v@,
                None => !self@.contains_key(name@),
            },
    {
        self.map.get(name)
    }

    /// The number of attributes.
    pub fn len(&self) -> (r: usize)
        ensures
            r == self@.len(),
    {
        broadcast use vstd::hash_map::group_hash_map_axioms;
        assert(self@.dom() =~= self.map@.dom());
        self.map.len()
    }
}

/// What an element is: its tag and its attributes.
pub struct ElementData {
    pub tag_name: String,
    pub attributes: AttrMap,
}

/// What a node is: a text, or an element.
pub enum NodeType {
    Text(String),
    Element(ElementData),
}

/// A node of the document, which owns the nodes below it.
pub struct Node {
    /// What all nodes have: their children, in document order.
    pub children: Vec<Node>,
    /// What this node is.
    pub node_type: NodeType,
}

/// A text node.
pub fn text(data: String) -> (r: Node)
    ensures
        r.children@.len() == 0,
        r.node_type == NodeType::Text(data),
{
    Node { children: Vec::new(), node_type: NodeType::Text(data) }
}

/// An element with its tag, attributes and children.
pub fn elem(name: String, attrs: AttrMap, children: Vec<Node>) -> (r: Node)
    ensures
        r.children == children,
        r.node_type == NodeType::Element(ElementData { tag_name: name, attributes: attrs }),
{
    Node { children, node_type: NodeType::Element(ElementData { tag_name: name, attributes: attrs }) }
}

/// White space, as Unicode defines it.
pub open spec fn is_space(c: char) -> bool {
    let u = c as u32;
    (0x09 <= u <= 0x0D) || u == 0x20 || u == 0x85 || u == 0xA0 || u == 0x1680 || (0x2000 <= u
        <= 0x200A) || u == 0x2028 || u == 0x2029 || u == 0x202F || u == 0x205F || u == 0x3000
}

/// Tests a character for white space.
pub fn is_whitespace(c: char) -> (r: bool)
    ensures
        r == is_space(c),
{
    let u: u32 = c as u32;
    (0x09 <= u && u <= 0x0D) || u == 0x20 || u == 0x85 || u == 0xA0 || u == 0x1680 || (0x2000 <= u
        && u <= 0x200A) || u == 0x2028 || u == 0x2029 || u == 0x202F || u == 0x205F || u
        == 0x3000
}

/// The characters of `s`, one by one.
pub fn chars_of(s: &str) -> (r: Vec<char>)
    ensures
        r@ == s@,
{
    broadcast use vstd::string::axiom_spec_iter, vstd::string::next_postcondition;

    let mut out: Vec<char> = Vec::new();
    let mut rest = s.chars();
    let mut more = true;
    while more
        invariant
            IteratorSpec::obeys_prophetic_iter_laws(&rest),
            out@ + IteratorSpec::remaining(&rest) == s@,
            !more ==> IteratorSpec::remaining(&rest).len() == 0,
        decreases s@.len() - out@.len(), if more { 1int } else { 0int },
    {
        match rest.next() {
            Some(c) => {
                out.push(c);
            },
            None => {
                more = false;
            },
        }
    }
    out
}

/// `s[i..j]` is a word of `s`: not empty, free of white space, and bounded
/// on each side by white space or by an end of `s`.
pub open spec fn word_at(s: Seq<char>, i: int, j: int) -> bool {
    &&& 0 <= i < j <= s.len()
    &&& forall|k: int| i <= k < j ==> !is_space(#[trigger] s[k])
    &&& (i == 0 || is_space(s[i - 1]))
    &&& (j == s.len() || is_space(s[j]))
}

/// The words of `s`.
pub open spec fn words(s: Seq<char>) -> Set<Seq<char>> {
    Set::new(
        |w: Seq<char>| exists|i: int, j: int| #[trigger] word_at(s, i, j) && s.subrange(i, j) == w,
    )
}

/// Splits `s` at white space: the result holds the words of `s` and nothing
/// else.
pub fn split_words(s: &str) -> (r: Vec<String>)
    ensures
        forall|k: int| 0 <= k < r@.len() ==> words(s@).contains(#[trigger] r@[k]@),
        forall|w: Seq<char>|
            words(s@).contains(w) ==> exists|k: int| 0 <= k < r@.len() && #[trigger] r@[k]@ == w,
{
    let chars = chars_of(s);
    let n: usize = chars.len();
    let mut out: Vec<String> = Vec::new();
    let mut i: usize = 0;
    while i < n
        invariant
            n == s@.len(),
            chars@ == s@,
            0 <= i <= n,
            i == 0 || i == n || is_space(s@[i - 1]),
            forall|k: int| 0 <= k < out@.len() ==> words(s@).contains(#[trigger] out@[k]@),
            forall|a: int, b: int|
                #[trigger] word_at(s@, a, b) && b <= i ==> exists|k: int|
                    0 <= k < out@.len() && #[trigger] out@[k]@ == s@.subrange(a, b),
        decreases n - i,
    {
        if is_whitespace(chars[i]) {
            i = i + 1;
        } else {
            let start: usize = i;
            while i < n && !is_whitespace(chars[i])
                invariant
                    n == s@.len(),
                    chars@ == s@,
                    start <= i <= n,
                    forall|k: int| start <= k < i ==> !is_space(#[trigger] s@[k]),
                decreases n - i,
            {
                i = i + 1;
            }
            let word = s.substring_char(start, i).to_owned();
            assert(word_at(s@, start as int, i as int));
            let ghost before = out@;
            out.push(word);
            assert(forall|k: int| 0 <= k < before.len() ==> out@[k] == before[k]);
            assert forall|a: int, b: int| #[trigger] word_at(s@, a, b) && b <= i implies exists|k: int|
                0 <= k < out@.len() && #[trigger] out@[k]@ == s@.subrange(a, b) by {
                if b > start {
                    assert(out@[before.len() as int]@ == s@.subrange(a, b));
                }
            }
            if i < n {
                i = i + 1;
            }
        }
    }
    out
}

impl ElementData {
    /// The classes of this element: the words of its attribute `class`.
    pub open spec fn class_set(&self) -> Set<Seq<char>> {
        if self.attributes@.contains_key("class"@) {
            words(self.attributes@["class"@])
        } else {
            Set::empty()
        }
    }

    /// The value of the attribute `id`, if there is one.
    pub fn id(&self) -> (r: Option<&String>)
        ensures
            match r {
                Some(v) => self.attributes@.contains_key("id"@) && self.attributes@["id"@] == v@,
                None => !self.attributes@.contains_key("id"@),
            },
    {
        self.attributes.get("id")
    }

    /// The classes of this element.
    pub fn classes(&self) -> (r: Vec<String>)
        ensures
            forall|k: int| 0 <= k < r@.len() ==> self.class_set().contains(#[trigger] r@[k]@),
            forall|w: Seq<char>|
                self.class_set().contains(w) ==> exists|k: int|
                    0 <= k < r@.len() && #[trigger] r@[k]@ == w,
    {
        match self.attributes.get("class") {
            Some(list) => split_words(list.as_str()),
            None => Vec::new(),
        }
    }
}

} // verus!
