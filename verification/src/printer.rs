//! The printer: a pure, deterministic serialization of the document tree
//! back to markup text. Elements without children render self-closing;
//! attributes render in order with double quotes; text and attribute values
//! re-encode the unsafe characters.
use vstd::prelude::*;
use vstd::string::StringExecFns;

use crate::parser::{decode_range, entity_at, lit_at};
use crate::tree::{Document, Element, Node, NodeView, attrs_view, nodes_view, node_view, doc_view,
    nodes_view_len, nodes_view_index};

verus! {

/// One text character as printed: `& < >` become references.
pub open spec fn escaped_text_char(c: char) -> Seq<char> {
    if c == '&' {
        seq!['&', 'a', 'm', 'p', ';']
    } else if c == '<' {
        seq!['&', 'l', 't', ';']
    } else if c == '>' {
        seq!['&', 'g', 't', ';']
    } else {
        seq![c]
    }
}

/// One attribute-value character as printed: `& < > "` become references.
pub open spec fn escaped_attr_char(c: char) -> Seq<char> {
    if c == '"' {
        seq!['&', 'q', 'u', 'o', 't', ';']
    } else {
        escaped_text_char(c)
    }
}

/// A text payload as printed.
pub open spec fn escape_text(s: Seq<char>) -> Seq<char>
    decreases s.len(),
{
    if s.len() == 0 {
        Seq::empty()
    } else {
        escape_text(s.drop_last()) + escaped_text_char(s.last())
    }
}

/// An attribute value as printed.
pub open spec fn escape_attr(s: Seq<char>) -> Seq<char>
    decreases s.len(),
{
    if s.len() == 0 {
        Seq::empty()
    } else {
        escape_attr(s.drop_last()) + escaped_attr_char(s.last())
    }
}

/// An attribute list as printed: ` name="value"` for each entry, in order.
pub open spec fn print_attrs(a: Seq<(Seq<char>, Seq<char>)>) -> Seq<char>
    decreases a.len(),
{
    if a.len() == 0 {
        Seq::empty()
    } else {
        print_attrs(a.drop_last()) + seq![' '] + a.last().0 + seq!['=', '"'] + escape_attr(
            a.last().1,
        ) + seq!['"']
    }
}

/// A node as printed.
pub open spec fn print_node(n: NodeView) -> Seq<char>
    decreases n, 0int,
{
    match n {
        NodeView::Element { name, attrs, children } => {
            if children.len() == 0 {
                seq!['<'] + name + print_attrs(attrs) + seq!['/', '>']
            } else {
                seq!['<'] + name + print_attrs(attrs) + seq!['>'] + print_nodes(children) + seq![
                    '<',
                    '/',
                ] + name + seq!['>']
            }
        },
        NodeView::Text(t) => escape_text(t),
        NodeView::Comment(c) => seq!['<', '!', '-', '-'] + c + seq!['-', '-', '>'],
        NodeView::ProcessingInstruction(p) => seq!['<', '?'] + p + seq!['?', '>'],
        NodeView::Doctype(d) => seq!['<', '!'] + d + seq!['>'],
    }
}

/// A node sequence as printed: each node in order.
pub open spec fn print_nodes(v: Seq<NodeView>) -> Seq<char>
    decreases v, 1int,
{
    if v.len() == 0 {
        Seq::empty()
    } else {
        print_nodes(v.drop_last()) + print_node(v.last())
    }
}

/// Append a text payload, escaped, to the output.
fn write_escaped_text(s: &String, out: &mut String)
    ensures
        final (out)@ == old(out)@ + escape_text(s@),
{
    let st = s.as_str();
    let n = st.unicode_len();
    let mut i: usize = 0;
    proof {
        assert(escape_text(s@.subrange(0, 0)) =~= Seq::<char>::empty());
    }
    while i < n
        invariant
            0 <= i <= n,
            n == s@.len(),
            st@ == s@,
            out@ == old(out)@ + escape_text(s@.subrange(0, i as int)),
        decreases n - i,
    {
        let c = st.get_char(i);
        if c == '&' {
            out.push('&');
            out.push('a');
            out.push('m');
            out.push('p');
            out.push(';');
        } else if c == '<' {
            out.push('&');
            out.push('l');
            out.push('t');
            out.push(';');
        } else if c == '>' {
            out.push('&');
            out.push('g');
            out.push('t');
            out.push(';');
        } else {
            out.push(c);
        }
        i += 1;
        proof {
            assert(s@.subrange(0, i as int).drop_last() =~= s@.subrange(0, i - 1));
            assert(out@ =~= old(out)@ + escape_text(s@.subrange(0, i as int)));
        }
    }
    proof {
        assert(s@.subrange(0, n as int) =~= s@);
    }
}

/// Append an attribute value, escaped, to the output.
fn write_escaped_attr(s: &String, out: &mut String)
    ensures
        final (out)@ == old(out)@ + escape_attr(s@),
{
    let st = s.as_str();
    let n = st.unicode_len();
    let mut i: usize = 0;
    proof {
        assert(escape_attr(s@.subrange(0, 0)) =~= Seq::<char>::empty());
    }
    while i < n
        invariant
            0 <= i <= n,
            n == s@.len(),
            st@ == s@,
            out@ == old(out)@ + escape_attr(s@.subrange(0, i as int)),
        decreases n - i,
    {
        let c = st.get_char(i);
        if c == '&' {
            out.push('&');
            out.push('a');
            out.push('m');
            out.push('p');
            out.push(';');
        } else if c == '<' {
            out.push('&');
            out.push('l');
            out.push('t');
            out.push(';');
        } else if c == '>' {
            out.push('&');
            out.push('g');
            out.push('t');
            out.push(';');
        } else if c == '"' {
            out.push('&');
            out.push('q');
            out.push('u');
            out.push('o');
            out.push('t');
            out.push(';');
        } else {
            out.push(c);
        }
        i += 1;
        proof {
            assert(s@.subrange(0, i as int).drop_last() =~= s@.subrange(0, i - 1));
            assert(out@ =~= old(out)@ + escape_attr(s@.subrange(0, i as int)));
        }
    }
    proof {
        assert(s@.subrange(0, n as int) =~= s@);
    }
}

/// Append the attribute list to the output.
fn write_attrs(a: &Vec<(String, String)>, out: &mut String)
    ensures
        final (out)@ == old(out)@ + print_attrs(attrs_view(a@)),
{
    let mut i: usize = 0;
    proof {
        assert(print_attrs(attrs_view(a@).subrange(0, 0)) =~= Seq::<char>::empty());
    }
    while i < a.len()
        invariant
            0 <= i <= a@.len(),
            out@ == old(out)@ + print_attrs(attrs_view(a@).subrange(0, i as int)),
        decreases a@.len() - i,
    {
        out.push(' ');
        out.append(a[i].0.as_str());
        out.push('=');
        out.push('"');
        write_escaped_attr(&a[i].1, out);
        out.push('"');
        i += 1;
        proof {
            assert(attrs_view(a@).subrange(0, i as int).drop_last() =~= attrs_view(a@).subrange(
                0,
                i - 1,
            ));
            assert(attrs_view(a@).subrange(0, i as int).last() == (a@[i - 1].0@, a@[i - 1].1@));
            assert(out@ =~= old(out)@ + print_attrs(attrs_view(a@).subrange(0, i as int)));
        }
    }
    proof {
        assert(attrs_view(a@).subrange(0, a@.len() as int) =~= attrs_view(a@));
    }
}

/// Append the rendering of every node in order to the output.
#[verifier::loop_isolation(false)]
fn write_nodes(nodes: &Vec<Node>, out: &mut String)
    ensures
        final (out)@ == old(out)@ + print_nodes(nodes_view(nodes@)),
    decreases nodes,
{
    broadcast use nodes_view_len, nodes_view_index;

    let mut i: usize = 0;
    proof {
        assert(print_nodes(nodes_view(nodes@).subrange(0, 0)) =~= Seq::<char>::empty());
    }
    while i < nodes.len()
        invariant
            0 <= i <= nodes@.len(),
            out@ == old(out)@ + print_nodes(nodes_view(nodes@).subrange(0, i as int)),
        decreases nodes@.len() - i,
    {
        let ghost before = out@;
        match &nodes[i] {
            Node::Element(e) => {
                out.push('<');
                out.append(e.name.as_str());
                write_attrs(&e.attributes, out);
                if e.children.len() == 0 {
                    out.push('/');
                    out.push('>');
                } else {
                    out.push('>');
                    write_nodes(&e.children, out);
                    out.push('<');
                    out.push('/');
                    out.append(e.name.as_str());
                    out.push('>');
                }
                proof {
                    assert(out@ =~= before + print_node(node_view(nodes@[i as int])));
                }
            },
            Node::Text(t) => {
                write_escaped_text(t, out);
            },
            Node::Comment(c) => {
                out.push('<');
                out.push('!');
                out.push('-');
                out.push('-');
                out.append(c.as_str());
                out.push('-');
                out.push('-');
                out.push('>');
                proof {
                    assert(out@ =~= before + print_node(node_view(nodes@[i as int])));
                }
            },
            Node::ProcessingInstruction(p) => {
                out.push('<');
                out.push('?');
                out.append(p.as_str());
                out.push('?');
                out.push('>');
                proof {
                    assert(out@ =~= before + print_node(node_view(nodes@[i as int])));
                }
            },
            Node::Doctype(d) => {
                out.push('<');
                out.push('!');
                out.append(d.as_str());
                out.push('>');
                proof {
                    assert(out@ =~= before + print_node(node_view(nodes@[i as int])));
                }
            },
        }
        i += 1;
        proof {
            assert(nodes_view(nodes@).subrange(0, i as int).drop_last() =~= nodes_view(
                nodes@,
            ).subrange(0, i - 1));
            assert(out@ =~= old(out)@ + print_nodes(nodes_view(nodes@).subrange(0, i as int)));
        }
    }
    proof {
        assert(nodes_view(nodes@).subrange(0, nodes@.len() as int) =~= nodes_view(nodes@));
    }
}

/// Serialize a document: exactly the text that `print_nodes` assigns to its
/// value.
pub fn print(doc: &Document) -> (r: String)
    ensures
        r@ == print_nodes(doc_view(*doc)),
{
    let mut out = String::new();
    write_nodes(&doc.root, &mut out);
    out
}


/// Peeling one character off the front of escape_text.
pub proof fn lemma_escape_text_front(t: Seq<char>)
    requires
        t.len() > 0,
    ensures
        escape_text(t) == escaped_text_char(t[0]) + escape_text(t.subrange(1, t.len() as int)),
    decreases t.len(),
{
    if t.len() == 1 {
        assert(t.drop_last() =~= Seq::<char>::empty());
        assert(t.subrange(1, t.len() as int) =~= Seq::<char>::empty());
        assert(escape_text(t) =~= escaped_text_char(t[0]) + escape_text(t.subrange(1, t.len() as int)));
    } else {
        let tdl = t.drop_last();
        lemma_escape_text_front(tdl);
        assert(tdl[0] == t[0]);
        assert(tdl.subrange(1, tdl.len() as int) =~= t.subrange(1, t.len() as int).drop_last());
        assert(escape_text(t) == escape_text(tdl) + escaped_text_char(t.last()));
        assert(t.subrange(1, t.len() as int).last() == t.last());
        assert(escape_text(t) =~= escaped_text_char(t[0]) + escape_text(t.subrange(1, t.len() as int)));
    }
}

proof fn escape_text_decode_helper(s: Seq<char>, i: int, t: Seq<char>)
    requires
        0 <= i <= s.len(),
        s.subrange(i, s.len() as int) == escape_text(t),
    ensures
        decode_range(s, i, s.len() as int) == t,
    decreases t.len(),
{
    let tail = s.subrange(i, s.len() as int);
    if t.len() == 0 {
        assert(tail.len() == 0);
        assert(decode_range(s, i, s.len() as int) =~= t);
    } else {
        lemma_escape_text_front(t);
        let c = t[0];
        let rest = t.subrange(1, t.len() as int);
        let ec = escaped_text_char(c);
        assert(tail =~= ec + escape_text(rest));
        assert(forall|k: int|
            0 <= k < ec.len() ==> s[i + k] == #[trigger] ec[k]) by {
            assert(forall|k: int|
                0 <= k < ec.len() ==> #[trigger] ec[k] == tail[k]);
        }
        assert(tail.subrange(ec.len() as int, tail.len() as int) =~= escape_text(rest));
        assert(s.subrange(i + ec.len(), s.len() as int) =~= tail.subrange(
            ec.len() as int,
            tail.len() as int,
        ));
        escape_text_decode_helper(s, i + ec.len(), rest);
        if c == '&' {
            assert(s.subrange(i, i + 5) =~= seq!['&', 'a', 'm', 'p', ';']);
            assert(entity_at(s, i, s.len() as int) == Some(('&', 5int)));
            assert(decode_range(s, i, s.len() as int) =~= seq!['&'] + rest);
        } else if c == '<' {
            assert(s.subrange(i, i + 4) =~= seq!['&', 'l', 't', ';']);
            assert(s[i + 1] == 'l');
            assert(!lit_at(s, i, s.len() as int, seq!['&', 'a', 'm', 'p', ';'])) by {
                if lit_at(s, i, s.len() as int, seq!['&', 'a', 'm', 'p', ';']) {
                    assert(s.subrange(i, i + 5)[1] == 'a');
                }
            }
            assert(entity_at(s, i, s.len() as int) == Some(('<', 4int)));
            assert(decode_range(s, i, s.len() as int) =~= seq!['<'] + rest);
        } else if c == '>' {
            assert(s.subrange(i, i + 4) =~= seq!['&', 'g', 't', ';']);
            assert(s[i + 1] == 'g');
            assert(!lit_at(s, i, s.len() as int, seq!['&', 'a', 'm', 'p', ';'])) by {
                if lit_at(s, i, s.len() as int, seq!['&', 'a', 'm', 'p', ';']) {
                    assert(s.subrange(i, i + 5)[1] == 'a');
                }
            }
            assert(!lit_at(s, i, s.len() as int, seq!['&', 'l', 't', ';'])) by {
                if lit_at(s, i, s.len() as int, seq!['&', 'l', 't', ';']) {
                    assert(s.subrange(i, i + 4)[1] == 'l');
                }
            }
            assert(entity_at(s, i, s.len() as int) == Some(('>', 4int)));
            assert(decode_range(s, i, s.len() as int) =~= seq!['>'] + rest);
        } else {
            assert(ec[0] == c);
            assert(s[i + 0] == ec[0]);
            assert(s[i] == c && c != '&');
            assert(decode_range(s, i, s.len() as int) =~= seq![c] + rest);
        }
        assert(seq![c] + rest =~= t);
    }
}

/// A printed text payload reads back as itself: decoding the escaped
/// form of any text recovers that text exactly.
pub proof fn lemma_escape_text_roundtrip(t: Seq<char>)
    ensures
        decode_range(escape_text(t), 0, escape_text(t).len() as int) == t,
{
    let s = escape_text(t);
    assert(s.subrange(0, s.len() as int) =~= s);
    escape_text_decode_helper(s, 0, t);
}

/// Peeling one character off the front of escape_attr.
pub proof fn lemma_escape_attr_front(t: Seq<char>)
    requires
        t.len() > 0,
    ensures
        escape_attr(t) == escaped_attr_char(t[0]) + escape_attr(t.subrange(1, t.len() as int)),
    decreases t.len(),
{
    if t.len() == 1 {
        assert(t.drop_last() =~= Seq::<char>::empty());
        assert(t.subrange(1, t.len() as int) =~= Seq::<char>::empty());
        assert(escape_attr(t) =~= escaped_attr_char(t[0]) + escape_attr(t.subrange(1, t.len() as int)));
    } else {
        let tdl = t.drop_last();
        lemma_escape_attr_front(tdl);
        assert(tdl[0] == t[0]);
        assert(tdl.subrange(1, tdl.len() as int) =~= t.subrange(1, t.len() as int).drop_last());
        assert(escape_attr(t) == escape_attr(tdl) + escaped_attr_char(t.last()));
        assert(t.subrange(1, t.len() as int).last() == t.last());
        assert(escape_attr(t) =~= escaped_attr_char(t[0]) + escape_attr(t.subrange(1, t.len() as int)));
    }
}

proof fn escape_attr_decode_helper(s: Seq<char>, i: int, t: Seq<char>)
    requires
        0 <= i <= s.len(),
        s.subrange(i, s.len() as int) == escape_attr(t),
    ensures
        decode_range(s, i, s.len() as int) == t,
    decreases t.len(),
{
    let tail = s.subrange(i, s.len() as int);
    if t.len() == 0 {
        assert(tail.len() == 0);
        assert(decode_range(s, i, s.len() as int) =~= t);
    } else {
        lemma_escape_attr_front(t);
        let c = t[0];
        let rest = t.subrange(1, t.len() as int);
        let ec = escaped_attr_char(c);
        assert(tail =~= ec + escape_attr(rest));
        assert(forall|k: int|
            0 <= k < ec.len() ==> s[i + k] == #[trigger] ec[k]) by {
            assert(forall|k: int|
                0 <= k < ec.len() ==> #[trigger] ec[k] == tail[k]);
        }
        assert(tail.subrange(ec.len() as int, tail.len() as int) =~= escape_attr(rest));
        assert(s.subrange(i + ec.len(), s.len() as int) =~= tail.subrange(
            ec.len() as int,
            tail.len() as int,
        ));
        escape_attr_decode_helper(s, i + ec.len(), rest);
        if c == '&' {
            assert(s.subrange(i, i + 5) =~= seq!['&', 'a', 'm', 'p', ';']);
            assert(entity_at(s, i, s.len() as int) == Some(('&', 5int)));
            assert(decode_range(s, i, s.len() as int) =~= seq!['&'] + rest);
        } else if c == '<' {
            assert(s.subrange(i, i + 4) =~= seq!['&', 'l', 't', ';']);
            assert(s[i + 1] == 'l');
            assert(!lit_at(s, i, s.len() as int, seq!['&', 'a', 'm', 'p', ';'])) by {
                if lit_at(s, i, s.len() as int, seq!['&', 'a', 'm', 'p', ';']) {
                    assert(s.subrange(i, i + 5)[1] == 'a');
                }
            }
            assert(entity_at(s, i, s.len() as int) == Some(('<', 4int)));
            assert(decode_range(s, i, s.len() as int) =~= seq!['<'] + rest);
        } else if c == '>' {
            assert(s.subrange(i, i + 4) =~= seq!['&', 'g', 't', ';']);
            assert(s[i + 1] == 'g');
            assert(!lit_at(s, i, s.len() as int, seq!['&', 'a', 'm', 'p', ';'])) by {
                if lit_at(s, i, s.len() as int, seq!['&', 'a', 'm', 'p', ';']) {
                    assert(s.subrange(i, i + 5)[1] == 'a');
                }
            }
            assert(!lit_at(s, i, s.len() as int, seq!['&', 'l', 't', ';'])) by {
                if lit_at(s, i, s.len() as int, seq!['&', 'l', 't', ';']) {
                    assert(s.subrange(i, i + 4)[1] == 'l');
                }
            }
            assert(entity_at(s, i, s.len() as int) == Some(('>', 4int)));
            assert(decode_range(s, i, s.len() as int) =~= seq!['>'] + rest);
        } else if c == '"' {
            assert(s.subrange(i, i + 6) =~= seq!['&', 'q', 'u', 'o', 't', ';']);
            assert(s[i + 1] == 'q');
            assert(!lit_at(s, i, s.len() as int, seq!['&', 'a', 'm', 'p', ';'])) by {
                if lit_at(s, i, s.len() as int, seq!['&', 'a', 'm', 'p', ';']) {
                    assert(s.subrange(i, i + 5)[1] == 'a');
                }
            }
            assert(!lit_at(s, i, s.len() as int, seq!['&', 'l', 't', ';'])) by {
                if lit_at(s, i, s.len() as int, seq!['&', 'l', 't', ';']) {
                    assert(s.subrange(i, i + 4)[1] == 'l');
                }
            }
            assert(!lit_at(s, i, s.len() as int, seq!['&', 'g', 't', ';'])) by {
                if lit_at(s, i, s.len() as int, seq!['&', 'g', 't', ';']) {
                    assert(s.subrange(i, i + 4)[1] == 'g');
                }
            }
            assert(entity_at(s, i, s.len() as int) == Some(('"', 6int)));
            assert(decode_range(s, i, s.len() as int) =~= seq!['"'] + rest);
        } else {
            assert(ec[0] == c);
            assert(s[i + 0] == ec[0]);
            assert(s[i] == c && c != '&');
            assert(decode_range(s, i, s.len() as int) =~= seq![c] + rest);
        }
        assert(seq![c] + rest =~= t);
    }
}

/// A printed attribute value reads back as itself: decoding the escaped
/// form of any value recovers that value exactly.
pub proof fn lemma_escape_attr_roundtrip(t: Seq<char>)
    ensures
        decode_range(escape_attr(t), 0, escape_attr(t).len() as int) == t,
{
    let s = escape_attr(t);
    assert(s.subrange(0, s.len() as int) =~= s);
    escape_attr_decode_helper(s, 0, t);
}


/// Escaped text never holds a raw `<`.
proof fn lemma_escape_text_no_lt(t: Seq<char>)
    ensures
        forall|i: int| 0 <= i < escape_text(t).len() ==> #[trigger] escape_text(t)[i] != '<',
    decreases t.len(),
{
    if t.len() > 0 {
        lemma_escape_text_no_lt(t.drop_last());
        let whole = escape_text(t);
        let pre = escape_text(t.drop_last());
        let ec = escaped_text_char(t.last());
        assert(whole == pre + ec);
        assert forall|i: int| 0 <= i < whole.len() implies #[trigger] whole[i] != '<' by {
            if i < pre.len() {
                assert(whole[i] == pre[i]);
            } else {
                assert(whole[i] == ec[i - pre.len()]);
            }
        }
    }
}

/// A run without `<` scans to its end.
proof fn lemma_scan_text_run(s: Seq<char>, i: int)
    requires
        0 <= i <= s.len(),
        forall|k: int| i <= k < s.len() ==> #[trigger] s[k] != '<',
    ensures
        crate::parser::scan_text_end(s, i) == s.len(),
    decreases s.len() - i,
{
    if i < s.len() {
        lemma_scan_text_run(s, i + 1);
    }
}

/// Printing a text-only document and parsing the result recovers the
/// document exactly: the one restriction is that the text must be non-empty
/// (an empty text node prints as nothing) and must not begin with the
/// byte-order mark (which the parser strips).
pub proof fn lemma_print_parse_text_roundtrip(t: Seq<char>)
    requires
        t.len() > 0,
        t[0] != '\u{feff}',
    ensures
        crate::parser::spec_parse(print_nodes(seq![NodeView::Text(t)])) == Ok::<
            Seq<NodeView>,
            crate::parser::SpecErr,
        >(seq![NodeView::Text(t)]),
{
    let v = seq![NodeView::Text(t)];
    assert(v.drop_last() =~= Seq::<NodeView>::empty());
    assert(v.last() == NodeView::Text(t));
    let s = escape_text(t);
    assert(print_nodes(Seq::<NodeView>::empty()) =~= Seq::<char>::empty());
    assert(print_nodes(v) == print_nodes(v.drop_last()) + print_node(v.last()));
    assert(print_nodes(v.drop_last()) == Seq::<char>::empty());
    assert(print_node(NodeView::Text(t)) == escape_text(t));
    assert(print_nodes(v) =~= s);
    lemma_escape_text_front(t);
    let ec = escaped_text_char(t[0]);
    assert(s[0] == ec[0]) by {
        assert(ec.len() >= 1);
        assert((ec + escape_text(t.subrange(1, t.len() as int)))[0] == ec[0]);
    }
    assert(s[0] != '\u{feff}');
    assert(s.len() >= 1);
    lemma_escape_text_no_lt(t);
    assert(s[0] != '<');
    lemma_scan_text_run(s, 0);
    assert(crate::parser::scan_text_end(s, 0) == s.len());
    assert(crate::parser::stepped(s, 0, s.len() as int) == s.len() as int);
    assert(crate::parser::spec_parse_nodes(s, s.len() as int) == Ok::<
        (Seq<NodeView>, int),
        crate::parser::SpecErr,
    >((Seq::empty(), s.len() as int)));
    assert(s.subrange(0, s.len() as int) =~= s);
    lemma_escape_text_roundtrip(t);
    assert(decode_range(s, 0, s.len() as int) == t);
    assert(crate::parser::spec_parse_nodes(s, 0) == Ok::<(Seq<NodeView>, int), crate::parser::SpecErr>((
        seq![NodeView::Text(t)] + Seq::<NodeView>::empty(),
        s.len() as int,
    )));
    assert(seq![NodeView::Text(t)] + Seq::<NodeView>::empty() =~= v);
}

} // verus!
