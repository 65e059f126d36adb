//! The document tree model: a document owns an ordered sequence of nodes,
//! an element owns its name, an ordered attribute list with unique keys, and
//! its children. Every node has exactly one owner.
use vstd::prelude::*;

verus! {

/// An element: tag name, ordered attributes, ordered children.
#[derive(Debug)]
pub struct Element {
    pub name: String,
    pub attributes: Vec<(String, String)>,
    pub children: Vec<Node>,
}

/// One node of the document tree.
#[derive(Debug)]
pub enum Node {
    Element(Element),
    Text(String),
    Comment(String),
    ProcessingInstruction(String),
    Doctype(String),
}

/// A parsed document: the ordered sequence of top-level nodes.
#[derive(Debug)]
pub struct Document {
    pub root: Vec<Node>,
}

/// The mathematical value of a node: the same shape over sequences.
pub ghost enum NodeView {
    Element { name: Seq<char>, attrs: Seq<(Seq<char>, Seq<char>)>, children: Seq<NodeView> },
    Text(Seq<char>),
    Comment(Seq<char>),
    ProcessingInstruction(Seq<char>),
    Doctype(Seq<char>),
}

/// The value of an attribute list.
pub open spec fn attrs_view(a: Seq<(String, String)>) -> Seq<(Seq<char>, Seq<char>)> {
    Seq::new(a.len(), |i: int| (a[i].0@, a[i].1@))
}

pub open spec fn node_view(n: Node) -> NodeView
    decreases n, 0int,
{
    match n {
        Node::Element(e) => NodeView::Element {
            name: e.name@,
            attrs: attrs_view(e.attributes@),
            children: nodes_view(e.children@),
        },
        Node::Text(t) => NodeView::Text(t@),
        Node::Comment(t) => NodeView::Comment(t@),
        Node::ProcessingInstruction(t) => NodeView::ProcessingInstruction(t@),
        Node::Doctype(t) => NodeView::Doctype(t@),
    }
}

pub open spec fn nodes_view(v: Seq<Node>) -> Seq<NodeView>
    decreases v, 1int,
{
    if v.len() == 0 {
        Seq::empty()
    } else {
        seq![node_view(v[0])] + nodes_view(v.subrange(1, v.len() as int))
    }
}

/// The value of a document.
pub open spec fn doc_view(d: Document) -> Seq<NodeView> {
    nodes_view(d.root@)
}

pub broadcast proof fn nodes_view_len(v: Seq<Node>)
    ensures
        (#[trigger] nodes_view(v)).len() == v.len(),
    decreases v.len(),
{
    if v.len() > 0 {
        nodes_view_len(v.subrange(1, v.len() as int));
    }
}

pub broadcast proof fn nodes_view_index(v: Seq<Node>, i: int)
    requires
        0 <= i < v.len(),
    ensures
        #[trigger] nodes_view(v)[i] == node_view(v[i]),
    decreases v.len(),
{
    nodes_view_len(v);
    if i > 0 {
        nodes_view_index(v.subrange(1, v.len() as int), i - 1);
    }
}

// ----- attribute lists -----
// Keys are unique; insertion order is significant and preserved. Setting an
// existing key keeps its position and replaces its value; setting a new key
// appends. Removing a key closes the gap.

/// Index of `key` in the attribute list, or -1.
pub open spec fn attrs_index_of(a: Seq<(Seq<char>, Seq<char>)>, key: Seq<char>) -> int
    decreases a.len(),
{
    if a.len() == 0 {
        -1
    } else if a[0].0 == key {
        0
    } else {
        let r = attrs_index_of(a.subrange(1, a.len() as int), key);
        if r < 0 {
            -1
        } else {
            r + 1
        }
    }
}

pub open spec fn attrs_has(a: Seq<(Seq<char>, Seq<char>)>, key: Seq<char>) -> bool {
    attrs_index_of(a, key) >= 0
}

/// The value at `key`, if present.
pub open spec fn attrs_get(a: Seq<(Seq<char>, Seq<char>)>, key: Seq<char>) -> Option<Seq<char>> {
    if attrs_has(a, key) {
        Some(a[attrs_index_of(a, key)].1)
    } else {
        None
    }
}

/// Set `key` to `value`: in place when present, appended when new.
pub open spec fn attrs_set(
    a: Seq<(Seq<char>, Seq<char>)>,
    key: Seq<char>,
    value: Seq<char>,
) -> Seq<(Seq<char>, Seq<char>)> {
    let i = attrs_index_of(a, key);
    if i >= 0 {
        a.update(i, (key, value))
    } else {
        a.push((key, value))
    }
}

/// Remove `key` when present, preserving the order of the rest.
pub open spec fn attrs_remove(a: Seq<(Seq<char>, Seq<char>)>, key: Seq<char>) -> Seq<
    (Seq<char>, Seq<char>),
> {
    let i = attrs_index_of(a, key);
    if i >= 0 {
        a.remove(i)
    } else {
        a
    }
}

pub broadcast proof fn attrs_index_of_props(a: Seq<(Seq<char>, Seq<char>)>, key: Seq<char>)
    ensures
        -1 <= #[trigger] attrs_index_of(a, key) < a.len(),
        attrs_index_of(a, key) >= 0 ==> a[attrs_index_of(a, key)].0 == key,
        forall|j: int|
            0 <= j < a.len() && a[j].0 == key ==> 0 <= attrs_index_of(a, key) <= j,
    decreases a.len(),
{
    if a.len() > 0 && a[0].0 != key {
        attrs_index_of_props(a.subrange(1, a.len() as int), key);
        assert forall|j: int| 0 <= j < a.len() && a[j].0 == key implies 0 <= attrs_index_of(
            a,
            key,
        ) <= j by {
            if j > 0 {
                assert(a.subrange(1, a.len() as int)[j - 1] == a[j]);
            }
        }
    }
}

/// Look up a key in an attribute list.
pub fn attrs_find(a: &Vec<(String, String)>, key: &str) -> (r: Option<usize>)
    ensures
        match r {
            Some(i) => attrs_index_of(attrs_view(a@), key@) == i as int && i < a@.len(),
            None => attrs_index_of(attrs_view(a@), key@) == -1,
        },
{
    broadcast use attrs_index_of_props;

    let mut i: usize = 0;
    while i < a.len()
        invariant
            i <= a@.len(),
            forall|j: int| 0 <= j < i ==> attrs_view(a@)[j].0 != key@,
        decreases a@.len() - i,
    {
        if crate::text::str_eq(a[i].0.as_str(), key) {
            proof {
                assert(attrs_view(a@)[i as int].0 == key@);
                attrs_index_of_first(attrs_view(a@), key@, i as int);
            }
            return Some(i);
        }
        i += 1;
    }
    proof {
        if attrs_index_of(attrs_view(a@), key@) >= 0 {
            assert(attrs_view(a@)[attrs_index_of(attrs_view(a@), key@)].0 == key@);
        }
    }
    None
}

proof fn attrs_index_of_first(a: Seq<(Seq<char>, Seq<char>)>, key: Seq<char>, k: int)
    requires
        0 <= k < a.len(),
        a[k].0 == key,
        forall|j: int| 0 <= j < k ==> a[j].0 != key,
    ensures
        attrs_index_of(a, key) == k,
    decreases a.len(),
{
    if k > 0 {
        assert(a[0].0 != key);
        attrs_index_of_first(a.subrange(1, a.len() as int), key, k - 1);
    }
}

/// The value at `key`, cloned, if present.
pub fn attrs_lookup(a: &Vec<(String, String)>, key: &str) -> (r: Option<String>)
    ensures
        match r {
            Some(v) => attrs_get(attrs_view(a@), key@) == Some(v@),
            None => attrs_get(attrs_view(a@), key@) is None,
        },
{
    match attrs_find(a, key) {
        Some(i) => Some(a[i].1.clone()),
        None => None,
    }
}

pub fn attrs_contains(a: &Vec<(String, String)>, key: &str) -> (r: bool)
    ensures
        r == attrs_has(attrs_view(a@), key@),
{
    attrs_find(a, key).is_some()
}

/// Whether `key` holds exactly the value `value`.
pub fn attr_is(a: &Vec<(String, String)>, key: &str, value: &str) -> (r: bool)
    ensures
        r == (attrs_get(attrs_view(a@), key@) == Some(value@)),
{
    match attrs_lookup(a, key) {
        Some(v) => crate::text::str_eq(v.as_str(), value),
        None => false,
    }
}

/// Set `key` to `value` in an element's attribute list.
pub fn attrs_put(a: &mut Vec<(String, String)>, key: String, value: String)
    ensures
        attrs_view(final (a)@) == attrs_set(attrs_view(old(a)@), key@, value@),
{
    match attrs_find(a, key.as_str()) {
        Some(i) => {
            a.set(i, (key, value));
            proof {
                assert(attrs_view(a@) =~= attrs_set(attrs_view(old(a)@), key@, value@));
            }
        },
        None => {
            a.push((key, value));
            proof {
                assert(attrs_view(a@) =~= attrs_set(attrs_view(old(a)@), key@, value@));
            }
        },
    }
}

/// Remove `key` from an element's attribute list, preserving order.
pub fn attrs_delete(a: &mut Vec<(String, String)>, key: &str)
    ensures
        attrs_view(final (a)@) == attrs_remove(attrs_view(old(a)@), key@),
{
    match attrs_find(a, key) {
        Some(i) => {
            a.remove(i);
            proof {
                assert(attrs_view(a@) =~= attrs_remove(attrs_view(old(a)@), key@));
            }
        },
        None => {
            proof {
                assert(attrs_view(a@) =~= attrs_remove(attrs_view(old(a)@), key@));
            }
        },
    }
}


// ----- laws of the attribute operations -----

/// Attribute keys are pairwise distinct, as the parser guarantees.
pub open spec fn attrs_unique(a: Seq<(Seq<char>, Seq<char>)>) -> bool {
    forall|i: int, j: int| 0 <= i < j < a.len() ==> (#[trigger] a[i].0) != (#[trigger] a[j].0)
}

/// A key that occurs nowhere is not found.
pub proof fn lemma_index_of_none(a: Seq<(Seq<char>, Seq<char>)>, key: Seq<char>)
    requires
        forall|j: int| 0 <= j < a.len() ==> (#[trigger] a[j].0) != key,
    ensures
        attrs_index_of(a, key) == -1,
    decreases a.len(),
{
    if a.len() > 0 {
        let t = a.subrange(1, a.len() as int);
        assert(forall|j: int| 0 <= j < t.len() ==> (#[trigger] t[j].0) != key) by {
            assert(forall|j: int|
                0 <= j < t.len() ==> #[trigger] t[j] == a[j + 1]);
        }
        lemma_index_of_none(t, key);
    }
}

/// What removal does under unique keys: the key is gone, the other keys
/// keep their values, and uniqueness is kept.
pub proof fn lemma_remove_props(a: Seq<(Seq<char>, Seq<char>)>, key: Seq<char>)
    requires
        attrs_unique(a),
    ensures
        !attrs_has(attrs_remove(a, key), key),
        attrs_unique(attrs_remove(a, key)),
        forall|k2: Seq<char>|
            k2 != key ==> #[trigger] attrs_get(attrs_remove(a, key), k2) == attrs_get(a, k2),
{
    broadcast use attrs_index_of_props;

    let i = attrs_index_of(a, key);
    if i < 0 {
    } else {
        let r = a.remove(i);
        assert(forall|j: int| 0 <= j < i ==> #[trigger] r[j] == a[j]);
        assert(forall|j: int| i <= j < r.len() ==> #[trigger] r[j] == a[j + 1]);
        assert(a[i].0 == key);
        assert(forall|j: int| 0 <= j < r.len() ==> (#[trigger] r[j].0) != key) by {
            assert(forall|j: int| 0 <= j < i ==> a[j].0 != key);
            assert(forall|j: int| i < j < a.len() ==> (#[trigger] a[j].0) != key) by {
                assert(forall|j: int| i < j < a.len() ==> a[i].0 != (#[trigger] a[j].0));
            }
        }
        lemma_index_of_none(r, key);
        assert forall|k2: Seq<char>| k2 != key implies #[trigger] attrs_get(attrs_remove(a, key),
            k2) == attrs_get(a, k2) by {
            let j2 = attrs_index_of(a, k2);
            if j2 >= 0 {
                assert(a[j2].0 == k2);
                assert(j2 != i);
                if j2 < i {
                    assert(r[j2] == a[j2]);
                    assert(forall|j: int| 0 <= j < j2 ==> (#[trigger] r[j].0) != k2);
                    attrs_index_of_first(r, k2, j2);
                } else {
                    assert(r[j2 - 1] == a[j2]);
                    assert(forall|j: int| 0 <= j < j2 - 1 ==> (#[trigger] r[j].0) != k2) by {
                        assert(forall|j: int| 0 <= j < j2 ==> (#[trigger] a[j].0) != k2);
                    }
                    attrs_index_of_first(r, k2, j2 - 1);
                }
            } else {
                assert(forall|j: int| 0 <= j < a.len() ==> (#[trigger] a[j].0) != k2);
                assert(forall|j: int| 0 <= j < r.len() ==> (#[trigger] r[j].0) != k2);
                lemma_index_of_none(r, k2);
            }
        }
    }
}

/// A key that is absent removes to no change.
pub proof fn lemma_remove_absent(a: Seq<(Seq<char>, Seq<char>)>, key: Seq<char>)
    requires
        !attrs_has(a, key),
    ensures
        attrs_remove(a, key) == a,
{
}


/// What setting does under unique keys: the key now has the value, other
/// keys keep theirs, and uniqueness is kept.
pub proof fn lemma_set_props(a: Seq<(Seq<char>, Seq<char>)>, key: Seq<char>, v: Seq<char>)
    requires
        attrs_unique(a),
    ensures
        attrs_get(attrs_set(a, key, v), key) == Some(v),
        attrs_unique(attrs_set(a, key, v)),
        forall|k2: Seq<char>|
            k2 != key ==> #[trigger] attrs_get(attrs_set(a, key, v), k2) == attrs_get(a, k2),
{
    broadcast use attrs_index_of_props;

    let i = attrs_index_of(a, key);
    let u = attrs_set(a, key, v);
    if i >= 0 {
        assert(u =~= a.update(i, (key, v)));
        assert(forall|j: int| 0 <= j < a.len() && j != i ==> #[trigger] u[j] == a[j]);
        assert(u[i] == (key, v));
        assert(forall|j: int| 0 <= j < i ==> (#[trigger] u[j].0) != key) by {
            assert(forall|j: int| 0 <= j < i ==> (#[trigger] a[j].0) != key);
        }
        attrs_index_of_first(u, key, i);
        assert forall|k2: Seq<char>| k2 != key implies #[trigger] attrs_get(u, k2) == attrs_get(
            a,
            k2,
        ) by {
            let j2 = attrs_index_of(a, k2);
            if j2 >= 0 {
                assert(a[j2].0 == k2);
                assert(j2 != i);
                assert(u[j2] == a[j2]);
                assert(forall|j: int| 0 <= j < j2 ==> (#[trigger] u[j].0) != k2) by {
                    assert(forall|j: int| 0 <= j < j2 ==> (#[trigger] a[j].0) != k2);
                }
                attrs_index_of_first(u, k2, j2);
            } else {
                assert(forall|j: int| 0 <= j < a.len() ==> (#[trigger] a[j].0) != k2);
                assert(forall|j: int| 0 <= j < u.len() ==> (#[trigger] u[j].0) != k2);
                lemma_index_of_none(u, k2);
            }
        }
        assert(attrs_unique(u)) by {
            assert(forall|j: int| 0 <= j < u.len() ==> #[trigger] u[j].0 == a[j].0);
        }
    } else {
        assert(u =~= a.push((key, v)));
        assert(forall|j: int| 0 <= j < a.len() ==> #[trigger] u[j] == a[j]);
        assert(u[a.len() as int] == (key, v));
        assert(forall|j: int| 0 <= j < a.len() ==> (#[trigger] a[j].0) != key);
        assert(forall|j: int| 0 <= j < a.len() ==> (#[trigger] u[j].0) != key);
        attrs_index_of_first(u, key, a.len() as int);
        assert forall|k2: Seq<char>| k2 != key implies #[trigger] attrs_get(u, k2) == attrs_get(
            a,
            k2,
        ) by {
            let j2 = attrs_index_of(a, k2);
            if j2 >= 0 {
                assert(u[j2] == a[j2] && a[j2].0 == k2);
                assert(forall|j: int| 0 <= j < j2 ==> (#[trigger] u[j].0) != k2) by {
                    assert(forall|j: int| 0 <= j < j2 ==> (#[trigger] a[j].0) != k2);
                }
                attrs_index_of_first(u, k2, j2);
            } else {
                assert(forall|j: int| 0 <= j < a.len() ==> (#[trigger] a[j].0) != k2);
                assert(forall|j: int| 0 <= j < u.len() ==> (#[trigger] u[j].0) != k2);
                lemma_index_of_none(u, k2);
            }
        }
        assert(attrs_unique(u)) by {
            assert(forall|i1: int, j1: int|
                0 <= i1 < j1 < u.len() ==> (#[trigger] u[i1].0) != (#[trigger] u[j1].0)) by {
                assert(forall|j: int| 0 <= j < a.len() ==> (#[trigger] u[j].0) == a[j].0);
            }
        }
    }
}

/// Setting a key to the value it already has changes nothing.
pub proof fn lemma_set_same(a: Seq<(Seq<char>, Seq<char>)>, key: Seq<char>, v: Seq<char>)
    requires
        attrs_get(a, key) == Some(v),
    ensures
        attrs_set(a, key, v) == a,
{
    broadcast use attrs_index_of_props;

    let i = attrs_index_of(a, key);
    assert(a[i].0 == key && a[i].1 == v);
    assert(a[i] == (key, v));
    assert(attrs_set(a, key, v) =~= a);
}


/// Every element's attribute keys are pairwise distinct, at every depth, as
/// parsing guarantees.
pub open spec fn spec_unique_tree(nodes: Seq<NodeView>) -> bool
    decreases nodes,
{
    if nodes.len() == 0 {
        true
    } else {
        let rest = spec_unique_tree(nodes.subrange(1, nodes.len() as int));
        match nodes[0] {
            NodeView::Element { attrs, children, .. } => attrs_unique(attrs) && spec_unique_tree(
                children,
            ) && rest,
            _ => rest,
        }
    }
}

} // verus!
