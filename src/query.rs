use vstd::prelude::*;
use crate::dom::{DomNode, Query, attribute_of, class_of, holds, query_pred, tag_pred, class_pred, text_pred, text_contains_pred, first_match, find_spec, deref_opt};

verus! {

broadcast use vstd::seq::group_seq_axioms, vstd::std_specs::vec::group_vec_axioms;

/// Looks up the first attribute called `name`.
fn attribute_value<'a>(attrs: &'a Vec<(String, String)>, name: &String) -> (r: Option<&'a String>)
    ensures
        match r {
            Some(v) => attribute_of(attrs@, name@) == Some(v@),
            None => attribute_of(attrs@, name@) is None,
        },
{
    let mut i: usize = 0;
    assert(attrs@.skip(0) =~= attrs@);
    while i < attrs.len()
        invariant
            i <= attrs.len(),
            attribute_of(attrs@, name@) == attribute_of(attrs@.skip(i as int), name@),
        decreases attrs.len() - i,
    {
        assert(attrs@.skip(i as int).drop_first() =~= attrs@.skip(i + 1));
        if attrs[i].0 == *name {
            return Some(&attrs[i].1);
        }
        i += 1;
    }
    None
}

/// Whether `text` contains the character `ch`.
fn text_contains(text: &String, ch: char) -> (r: bool)
    ensures
        r == text@.contains(ch),
{
    let s = text.as_str();
    let len = s.unicode_len();
    let mut i: usize = 0;
    while i < len
        invariant
            len == s@.len(),
            s@ == text@,
            i <= len,
            forall|j: int| 0 <= j < i ==> s@[j] != ch,
        decreases len - i,
    {
        if s.get_char(i) == ch {
            return true;
        }
        i += 1;
    }
    false
}

/// Whether node `n` satisfies query `q`.
fn node_matches(n: &DomNode, q: &Query) -> (r: bool)
    ensures
        r == holds(*q, *n),
{
    match q {
        Query::Tag(t) => n.tag == *t,
        Query::Class(c) => {
            let class_name = "class".to_owned();
            match attribute_value(&n.attributes, &class_name) {
                Some(v) => {
                    proof {
                        assert(class_of(*n) == Some(v@));
                    }
                    *v == *c
                },
                None => false,
            }
        },
        Query::TextEquals(t) => n.text_value == *t,
        Query::TextContains(ch) => text_contains(&n.text_value, *ch),
    }
}

/// Pre-order search of the forest `nodes` for the first node satisfying `q`.
fn find_in_forest<'a>(nodes: &'a Vec<DomNode>, q: &Query) -> (r: Option<&'a DomNode>)
    ensures
        deref_opt(r) == first_match(nodes@, query_pred(*q)),
    decreases nodes@,
{
    let mut i: usize = 0;
    assert(nodes@.skip(0) =~= nodes@);
    while i < nodes.len()
        invariant
            i <= nodes.len(),
            first_match(nodes@, query_pred(*q)) == first_match(nodes@.skip(i as int), query_pred(*q)),
        decreases nodes.len() - i,
    {
        let n = &nodes[i];
        assert(nodes@.skip(i as int)[0] == nodes@[i as int]);
        assert(nodes@.skip(i as int).drop_first() =~= nodes@.skip(i + 1));
        if node_matches(n, q) {
            return Some(n);
        }
        assert(decreases_to!(nodes@ => nodes@[i as int]));
        let found = find_in_forest(&n.children, q);
        if found.is_some() {
            return found;
        }
        i += 1;
    }
    None
}

/// The first node of the subtree rooted at `root` (root included) that
/// satisfies `q`, visiting each node before its children and siblings in
/// document order; `None` when no node does.
pub fn find_first<'a>(root: &'a DomNode, q: &Query) -> (r: Option<&'a DomNode>)
    ensures
        deref_opt(r) == find_spec(*root, query_pred(*q)),
{
    reveal_with_fuel(first_match, 2);
    assert(seq![*root].drop_first() =~= Seq::<DomNode>::empty());
    if node_matches(root, q) {
        return Some(root);
    }
    find_in_forest(&root.children, q)
}

/// The first node tagged `tag` in the subtree rooted at `root`.
pub fn find_by_tag<'a>(root: &'a DomNode, tag: &str) -> (r: Option<&'a DomNode>)
    ensures
        deref_opt(r) == find_spec(*root, tag_pred(tag@)),
{
    let q = Query::Tag(tag.to_owned());
    assert(query_pred(q) =~= tag_pred(tag@));
    find_first(root, &q)
}

/// The first node in the subtree rooted at `root` whose whole `class`
/// attribute equals `class_value`; nodes without one never match.
pub fn find_by_class<'a>(root: &'a DomNode, class_value: &str) -> (r: Option<&'a DomNode>)
    ensures
        deref_opt(r) == find_spec(*root, class_pred(class_value@)),
{
    let q = Query::Class(class_value.to_owned());
    assert(query_pred(q) =~= class_pred(class_value@));
    find_first(root, &q)
}

/// The first node in the subtree rooted at `root` whose text value is `text`.
pub fn find_by_text<'a>(root: &'a DomNode, text: &str) -> (r: Option<&'a DomNode>)
    ensures
        deref_opt(r) == find_spec(*root, text_pred(text@)),
{
    let q = Query::TextEquals(text.to_owned());
    assert(query_pred(q) =~= text_pred(text@));
    find_first(root, &q)
}

/// The first node in the subtree rooted at `root` whose text value
/// contains `ch`.
pub fn find_by_text_containing<'a>(root: &'a DomNode, ch: char) -> (r: Option<&'a DomNode>)
    ensures
        deref_opt(r) == find_spec(*root, text_contains_pred(ch)),
{
    let q = Query::TextContains(ch);
    assert(query_pred(q) =~= text_contains_pred(ch));
    find_first(root, &q)
}

} // verus!
