use vstd::prelude::*;

verus! {

/// One node of a rendered HTML tree.
///
/// Text nodes carry the tag `#text` and their content in `text_value`;
/// other nodes leave `text_value` empty. `attributes` lists name/value
/// pairs with distinct names; a node without attributes has an empty list.
/// Each node owns its children, in document order.
pub struct DomNode {
    pub tag: String,
    pub text_value: String,
    pub attributes: Vec<(String, String)>,
    pub children: Vec<DomNode>,
}

/// What a node is searched for.
pub enum Query {
    /// The tag name equals the given one.
    Tag(String),
    /// The whole `class` attribute equals the given string.
    Class(String),
    /// The text value equals the given string.
    TextEquals(String),
    /// The text value contains the given character.
    TextContains(char),
}

/// The value of the first attribute called `name`, if any.
pub open spec fn attribute_of(attrs: Seq<(String, String)>, name: Seq<char>) -> Option<Seq<char>>
    decreases attrs.len(),
{
    if attrs.len() == 0 {
        None
    } else if attrs[0].0@ == name {
        Some(attrs[0].1@)
    } else {
        attribute_of(attrs.drop_first(), name)
    }
}

/// The `class` attribute of a node; a node without one has none.
pub open spec fn class_of(n: DomNode) -> Option<Seq<char>> {
    attribute_of(n.attributes@, "class"@)
}

/// Whether node `n` satisfies query `q`.
pub open spec fn holds(q: Query, n: DomNode) -> bool {
    match q {
        Query::Tag(t) => n.tag@ == t@,
        Query::Class(c) => class_of(n) == Some(c@),
        Query::TextEquals(t) => n.text_value@ == t@,
        Query::TextContains(ch) => n.text_value@.contains(ch),
    }
}

/// Query `q` as a predicate on nodes.
pub open spec fn query_pred(q: Query) -> spec_fn(DomNode) -> bool {
    |n: DomNode| holds(q, n)
}

/// Holds of the nodes tagged `t`.
pub open spec fn tag_pred(t: Seq<char>) -> spec_fn(DomNode) -> bool {
    |n: DomNode| n.tag@ == t
}

/// Holds of the nodes whose whole `class` attribute is `c`.
pub open spec fn class_pred(c: Seq<char>) -> spec_fn(DomNode) -> bool {
    |n: DomNode| class_of(n) == Some(c)
}

/// Holds of the nodes whose text value is `t`.
pub open spec fn text_pred(t: Seq<char>) -> spec_fn(DomNode) -> bool {
    |n: DomNode| n.text_value@ == t
}

/// Holds of the nodes whose text value contains `ch`.
pub open spec fn text_contains_pred(ch: char) -> spec_fn(DomNode) -> bool {
    |n: DomNode| n.text_value@.contains(ch)
}

/// The first node satisfying `p` in a depth-first pre-order walk of the
/// forest `nodes`: each node before its children, siblings in order.
pub open spec fn first_match(nodes: Seq<DomNode>, p: spec_fn(DomNode) -> bool) -> Option<DomNode>
    decreases nodes,
{
    if nodes.len() == 0 {
        None
    } else if p(nodes[0]) {
        Some(nodes[0])
    } else {
        match first_match(nodes[0].children@, p) {
            Some(n) => Some(n),
            None => first_match(nodes.drop_first(), p),
        }
    }
}

/// The first node satisfying `p` in the subtree rooted at `root`, root included.
pub open spec fn find_spec(root: DomNode, p: spec_fn(DomNode) -> bool) -> Option<DomNode> {
    first_match(seq![root], p)
}

/// Reads an optional reference as the optional value it points to.
pub open spec fn deref_opt(r: Option<&DomNode>) -> Option<DomNode> {
    match r {
        Some(n) => Some(*n),
        None => None,
    }
}

} // verus!
