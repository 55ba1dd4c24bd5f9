//! The XML-like renderer: one element per node, no character escaping.

use vstd::prelude::*;
use crate::node::{forest_height, forest_view, lemma_forest_height, node_height, Node, NodeView};
use crate::text::{contains_char, push_spaces, replace_char, spaces};

verus! {

/// The inner text of a leaf element whose indentation string is `sp`.
/// Content with a newline is re-indented: it moves to its own lines,
/// one indent unit (two spaces) deeper, and the closing tag returns to
/// the element's own indent.  Content without a newline stays verbatim.
pub open spec fn xml_content_with(content: Seq<char>, sp: Seq<char>) -> Seq<char> {
    if content.contains('\n') {
        let pad = seq!['\n'] + sp + seq![' ', ' '];
        pad + replace_char(content, '\n', pad) + seq!['\n'] + sp
    } else {
        content
    }
}

/// The rendering of one element at `level`: the indented opening tag,
/// the inner text (children on their own lines, or leaf content), and
/// the closing tag.
pub open spec fn xml_node(n: NodeView, level: nat) -> Seq<char>
    decreases n,
{
    let sp = spaces(2 * level);
    let inner = if n.children.len() > 0 {
        seq!['\n'] + xml_forest(n.children, level + 1) + seq!['\n'] + sp
    } else {
        xml_content_with(n.content, sp)
    };
    sp + seq!['<'] + n.tag + seq!['>'] + inner + seq!['<', '/'] + n.tag + seq!['>']
}

/// The rendering of sibling elements, joined by single newlines, with
/// no trailing newline.
pub open spec fn xml_forest(s: Seq<NodeView>, level: nat) -> Seq<char>
    decreases s,
{
    if s.len() == 0 {
        Seq::empty()
    } else if s.len() == 1 {
        xml_node(s[0], level)
    } else {
        xml_node(s[0], level) + seq!['\n'] + xml_forest(s.subrange(1, s.len() as int), level)
    }
}

/// Unrolls `xml_forest` at position `i`.
proof fn lemma_xml_forest_skip(s: Seq<NodeView>, level: nat, i: int)
    requires
        0 <= i < s.len(),
    ensures
        i < s.len() - 1 ==> xml_forest(s.skip(i), level) == xml_node(s[i], level) + seq!['\n']
            + xml_forest(s.skip(i + 1), level),
        i == s.len() - 1 ==> xml_forest(s.skip(i), level) == xml_node(s[i], level),
{
    let rest = s.skip(i);
    assert(rest.len() == s.len() - i);
    assert(rest[0] == s[i]);
    if i < s.len() - 1 {
        assert(rest.subrange(1, rest.len() as int) =~= s.skip(i + 1));
    }
}

/// Whether `s` is free of blank lines: nowhere two newlines in a row.
pub open spec fn no_blank_line(s: Seq<char>) -> bool {
    forall|i: int| 0 <= i && i + 1 < s.len() ==> !((#[trigger] s[i]) == '\n' && s[i + 1] == '\n')
}

/// Whether `s` holds no newline at all.
pub open spec fn no_newline(s: Seq<char>) -> bool {
    forall|i: int| 0 <= i < s.len() ==> s[i] != '\n'
}

/// Whether a node's tag, and every tag below it, is newline-free.
pub open spec fn node_tags_newline_free(n: NodeView) -> bool
    decreases n,
{
    no_newline(n.tag) && forest_tags_newline_free(n.children)
}

/// Whether every tag in the forest is newline-free.
pub open spec fn forest_tags_newline_free(s: Seq<NodeView>) -> bool
    decreases s,
{
    if s.len() == 0 {
        true
    } else {
        node_tags_newline_free(s[0]) && forest_tags_newline_free(s.subrange(1, s.len() as int))
    }
}

/// Text without newlines has no blank line.
proof fn lemma_no_nl_nbl(s: Seq<char>)
    requires
        no_newline(s),
    ensures
        no_blank_line(s),
{
}

/// Newline-freedom joins over concatenation.
proof fn lemma_no_nl_concat(a: Seq<char>, b: Seq<char>)
    requires
        no_newline(a),
        no_newline(b),
    ensures
        no_newline(a + b),
{
    assert forall|i: int| 0 <= i < (a + b).len() implies (a + b)[i] != '\n' by {
        if i < a.len() {
            assert((a + b)[i] == a[i]);
        } else {
            assert((a + b)[i] == b[i - a.len()]);
        }
    }
}

/// Blank-line-freedom joins over concatenation when the seam does not
/// put two newlines together.
proof fn lemma_nbl_concat(a: Seq<char>, b: Seq<char>)
    requires
        no_blank_line(a),
        no_blank_line(b),
        a.len() > 0 && b.len() > 0 ==> !(a.last() == '\n' && b[0] == '\n'),
    ensures
        no_blank_line(a + b),
{
    assert forall|i: int| 0 <= i && i + 1 < (a + b).len() implies !(((#[trigger] (a + b)[i]))
        == '\n' && (a + b)[i + 1] == '\n') by {
        if i + 1 < a.len() {
            assert((a + b)[i] == a[i] && (a + b)[i + 1] == a[i + 1]);
        } else if i + 1 == a.len() {
            assert((a + b)[i] == a[i] && (a + b)[i + 1] == b[0]);
            assert(a.last() == a[i]);
        } else {
            assert((a + b)[i] == b[i - a.len()] && (a + b)[i + 1] == b[i + 1 - a.len()]);
        }
    }
}

/// In content re-indented with a newline-plus-spaces pad, every
/// newline is followed by a space.
proof fn lemma_replace_nl_pad(s: Seq<char>, pad: Seq<char>)
    requires
        pad.len() >= 1,
        forall|i: int| 0 <= i < pad.len() ==> pad[i] == ' ',
    ensures
        ({
            let r = replace_char(s, '\n', seq!['\n'] + pad);
            forall|i: int| 0 <= i < r.len() && (#[trigger] r[i]) == '\n' ==> i + 1 < r.len() && r[
                i + 1
            ] == ' '
        }),
    decreases s.len(),
{
    let q = seq!['\n'] + pad;
    let r = replace_char(s, '\n', q);
    if s.len() > 0 {
        let rest = s.subrange(1, s.len() as int);
        lemma_replace_nl_pad(rest, pad);
        let rr = replace_char(rest, '\n', q);
        let h = if s[0] == '\n' {
            q
        } else {
            seq![s[0]]
        };
        assert(r == h + rr);
        assert forall|i: int| 0 <= i < r.len() && (#[trigger] r[i]) == '\n' implies i + 1
            < r.len() && r[i + 1] == ' ' by {
            if i < h.len() {
                assert(r[i] == h[i]);
                if s[0] == '\n' {
                    assert(q.len() >= 2);
                    if i == 0 {
                        assert(r[1] == q[1]);
                        assert(q[1] == pad[0]);
                    } else {
                        assert(h[i] == pad[i - 1]);
                        assert(h[i] != '\n');
                    }
                } else {
                    assert(h[i] == s[0]);
                    assert(s[0] != '\n');
                }
            } else {
                assert(r[i] == rr[i - h.len()]);
                assert(rr[i - h.len()] == '\n');
                assert(i - h.len() + 1 < rr.len());
                assert(r[i + 1] == rr[i - h.len() + 1]);
            }
        }
    }
}

/// A leaf's inner text holds no blank line when its indent string is
/// all spaces.
proof fn lemma_xml_content_nbl(content: Seq<char>, sp: Seq<char>)
    requires
        forall|i: int| 0 <= i < sp.len() ==> sp[i] == ' ',
    ensures
        no_blank_line(xml_content_with(content, sp)),
        xml_content_with(content, sp).len() > 0 ==> xml_content_with(content, sp)[0] != '\n'
            || content.contains('\n'),
{
    if content.contains('\n') {
        let padp = sp + seq![' ', ' '];
        let pad = seq!['\n'] + sp + seq![' ', ' '];
        assert(pad =~= seq!['\n'] + padp);
        lemma_replace_nl_pad(content, padp);
        let r = replace_char(content, '\n', seq!['\n'] + padp);
        assert(replace_char(content, '\n', pad) == r);
        assert(no_blank_line(r)) by {
            assert forall|i: int| 0 <= i && i + 1 < r.len() implies !((#[trigger] r[i]) == '\n'
                && r[i + 1] == '\n') by {
                if r[i] == '\n' {
                    assert(r[i + 1] == ' ');
                }
            }
        }
        assert(r.len() > 0 ==> r.last() != '\n');
        assert(no_blank_line(pad)) by {
            assert forall|i: int| 0 <= i && i + 1 < pad.len() implies !((#[trigger] pad[i])
                == '\n' && pad[i + 1] == '\n') by {
                assert(pad[i + 1] == padp[i]);
            }
        }
        assert(pad.last() == padp[padp.len() - 1]);
        lemma_nbl_concat(pad, r);
        assert(no_blank_line(seq!['\n'] + sp)) by {
            assert forall|i: int| 0 <= i && i + 1 < (seq!['\n'] + sp).len() implies !((
            #[trigger] (seq!['\n'] + sp)[i]) == '\n' && (seq!['\n'] + sp)[i + 1] == '\n') by {
                assert((seq!['\n'] + sp)[i + 1] == sp[i]);
            }
        }
        let head = pad + r;
        assert(head.len() > 0 ==> head.last() != '\n') by {
            if r.len() > 0 {
                assert(head.last() == r.last());
            } else {
                assert(head.last() == pad.last());
            }
        }
        lemma_nbl_concat(head, seq!['\n'] + sp);
        assert(xml_content_with(content, sp) == head + (seq!['\n'] + sp)) by {
            assert(pad + r + seq!['\n'] + sp =~= head + (seq!['\n'] + sp));
        }
    } else {
        assert(no_newline(content));
        lemma_no_nl_nbl(content);
    }
}

/// One element of a tag-clean tree holds no blank line, starts with a
/// space or `<`, and ends with `>`.
proof fn lemma_xml_node_nbl(n: NodeView, level: nat)
    requires
        node_tags_newline_free(n),
    ensures
        ({
            let e = xml_node(n, level);
            &&& no_blank_line(e)
            &&& e.len() > 0
            &&& e[0] != '\n'
            &&& e.last() == '>'
        }),
    decreases n,
{
    let sp = spaces(2 * level);
    let e = xml_node(n, level);
    let opening = sp + seq!['<'] + n.tag + seq!['>'];
    let closing = seq!['<', '/'] + n.tag + seq!['>'];
    assert(no_newline(sp));
    lemma_no_nl_concat(sp, seq!['<']);
    lemma_no_nl_concat(sp + seq!['<'], n.tag);
    lemma_no_nl_concat(sp + seq!['<'] + n.tag, seq!['>']);
    lemma_no_nl_nbl(opening);
    lemma_no_nl_concat(seq!['<', '/'], n.tag);
    lemma_no_nl_concat(seq!['<', '/'] + n.tag, seq!['>']);
    lemma_no_nl_nbl(closing);
    let inner = if n.children.len() > 0 {
        seq!['\n'] + xml_forest(n.children, level + 1) + seq!['\n'] + sp
    } else {
        xml_content_with(n.content, sp)
    };
    assert(e == opening + inner + closing);
    if n.children.len() > 0 {
        lemma_xml_forest_nbl(n.children, level + 1);
        let f = xml_forest(n.children, level + 1);
        lemma_nbl_concat(seq!['\n'], f);
        lemma_nbl_concat(seq!['\n'] + f, seq!['\n']);
        assert(no_blank_line(inner)) by {
            assert(((seq!['\n'] + f) + seq!['\n']).last() == '\n');
            assert(no_blank_line(sp)) by {
                lemma_no_nl_nbl(sp);
            }
            lemma_nbl_concat((seq!['\n'] + f) + seq!['\n'], sp);
            assert(inner =~= ((seq!['\n'] + f) + seq!['\n']) + sp);
        }
    } else {
        lemma_xml_content_nbl(n.content, sp);
    }
    lemma_nbl_concat(opening, inner);
    lemma_nbl_concat(opening + inner, closing);
    assert(no_blank_line(e)) by {
        assert(e =~= (opening + inner) + closing);
    }
    assert(e[0] == opening[0]);
    if 2 * level > 0 {
        assert(e[0] == sp[0]);
    } else {
        assert(e[0] == '<');
    }
    assert(e.last() == closing.last());
}

/// A tag-clean forest renders with no blank line; when non-empty it
/// starts with a space or `<` and ends with `>`.
proof fn lemma_xml_forest_nbl(s: Seq<NodeView>, level: nat)
    requires
        forest_tags_newline_free(s),
    ensures
        ({
            let f = xml_forest(s, level);
            &&& no_blank_line(f)
            &&& s.len() > 0 ==> f.len() > 0 && f[0] != '\n' && f.last() == '>'
        }),
    decreases s,
{
    if s.len() == 0 {
    } else if s.len() == 1 {
        lemma_xml_node_nbl(s[0], level);
    } else {
        let rest = s.subrange(1, s.len() as int);
        lemma_xml_node_nbl(s[0], level);
        lemma_xml_forest_nbl(rest, level);
        let e = xml_node(s[0], level);
        let f = xml_forest(rest, level);
        lemma_nbl_concat(e, seq!['\n']);
        lemma_nbl_concat(e + seq!['\n'], f);
        assert(xml_forest(s, level) == (e + seq!['\n']) + f);
        assert(xml_forest(s, level).last() == f.last());
        assert(xml_forest(s, level)[0] == e[0]);
    }
}

/// An XML render holds no blank line — nowhere two newlines in a row —
/// provided no tag holds a newline.  Content may hold newlines
/// freely: re-indentation always puts indent spaces after each one.
pub proof fn lemma_xml_no_blank_lines(s: Seq<NodeView>, level: nat)
    requires
        forest_tags_newline_free(s),
    ensures
        no_blank_line(xml_forest(s, level)),
{
    lemma_xml_forest_nbl(s, level);
}

/// Formats a leaf element's inner text; `has_newlines` says whether
/// `content` holds a newline and `sp` is the element's indentation.
pub fn format_content(content: &str, has_newlines: bool, sp: &str) -> (res: String)
    requires
        has_newlines == content@.contains('\n'),
    ensures
        res@ == xml_content_with(content@, sp@),
{
    if has_newlines {
        let mut r = String::new();
        r.push('\n');
        r.append(sp);
        r.push(' ');
        r.push(' ');
        proof {
            assert(r@ =~= seq!['\n'] + sp@ + seq![' ', ' ']);
        }
        let mut out = String::new();
        out.append(r.as_str());
        crate::text::push_replaced(&mut out, content, '\n', r.as_str());
        out.push('\n');
        out.append(sp);
        proof {
            assert(out@ =~= xml_content_with(content@, sp@));
        }
        out
    } else {
        content.to_owned()
    }
}

/// Appends the XML rendering of `nodes` at `level` to `out`.
#[verifier::rlimit(60)]
fn xml_into(out: &mut String, nodes: &[Node], level: usize)
    requires
        2 * (level + forest_height(forest_view(nodes@))) <= usize::MAX,
    ensures
        final(out)@ == old(out)@ + xml_forest(forest_view(nodes@), level as nat),
    decreases nodes@,
{
    let ghost fv = forest_view(nodes@);
    proof {
        crate::node::lemma_forest_view(nodes@);
        assert(fv.skip(0) =~= fv);
    }
    let n = nodes.len();
    let mut i: usize = 0;
    while i < n
        invariant
            i <= n,
            n == nodes@.len(),
            fv == forest_view(nodes@),
            fv.len() == n,
            forall|j: int| 0 <= j < n ==> fv[j] == nodes@[j]@,
            2 * (level + forest_height(fv)) <= usize::MAX,
            out@ + (if i == 0 {
                xml_forest(fv, level as nat)
            } else if i < n {
                seq!['\n'] + xml_forest(fv.skip(i as int), level as nat)
            } else {
                Seq::<char>::empty()
            }) == old(out)@ + xml_forest(fv, level as nat),
        decreases n - i,
    {
        proof {
            lemma_forest_height(fv);
            assert(node_height(fv[i as int]) <= forest_height(fv));
            assert(node_height(fv[i as int]) >= 1);
            lemma_xml_forest_skip(fv, level as nat, i as int);
        }
        if i > 0 {
            out.push('\n');
            proof {
                assert(out@ + xml_forest(fv.skip(i as int), level as nat) == old(out)@ + xml_forest(
                    fv,
                    level as nat,
                ));
            }
        }
        let ghost out0 = out@;
        let node = &nodes[i];
        let mut sp = String::new();
        push_spaces(&mut sp, 2 * level);
        out.append(sp.as_str());
        out.push('<');
        out.append(node.tag.as_str());
        out.push('>');
        let ghost pa = spaces(2 * level as nat) + seq!['<'] + fv[i as int].tag + seq!['>'];
        proof {
            assert(out@ =~= out0 + pa);
        }
        let ghost out1 = out@;
        let ghost mut pb: Seq<char> = Seq::empty();
        match &node.children {
            Option::Some(cs) if cs.len() > 0 => {
                out.push('\n');
                proof {
                    assert(decreases_to!(nodes@ => nodes@[i as int]));
                    assert(decreases_to!(nodes@[i as int] => nodes@[i as int].children));
                    assert(decreases_to!(nodes@[i as int].children => *cs));
                    assert(decreases_to!(*cs => cs@));
                    assert(forest_view(cs@) == fv[i as int].children);
                    crate::node::lemma_forest_view(cs@);
                    assert(fv[i as int].children.len() > 0);
                }
                xml_into(out, cs.as_slice(), level + 1);
                out.push('\n');
                out.append(sp.as_str());
                proof {
                    pb = seq!['\n'] + xml_forest(fv[i as int].children, level as nat + 1)
                        + seq!['\n'] + spaces(2 * level as nat);
                    assert(out@ =~= out1 + pb);
                }
            },
            _ => {
                proof {
                    assert(fv[i as int].children.len() == 0);
                }
                let has_nl = contains_char(node.content.as_str(), '\n');
                let fc = format_content(node.content.as_str(), has_nl, sp.as_str());
                out.append(fc.as_str());
                proof {
                    pb = xml_content_with(fv[i as int].content, spaces(2 * level as nat));
                    assert(out@ =~= out1 + pb);
                }
            },
        }
        let ghost out2 = out@;
        out.push('<');
        out.push('/');
        out.append(node.tag.as_str());
        out.push('>');
        let ghost pc = seq!['<', '/'] + fv[i as int].tag + seq!['>'];
        proof {
            assert(out@ =~= out2 + pc);
            crate::text::lemma_concat_assoc(out0, pa, pb);
            crate::text::lemma_concat_assoc(out0, pa + pb, pc);
            let a3 = seq!['<', '/'];
            let a4 = seq!['>'];
            assert(xml_node(fv[i as int], level as nat) == (((pa + pb) + a3) + fv[i as int].tag)
                + a4);
            crate::text::lemma_concat_assoc(pa + pb, a3, fv[i as int].tag);
            crate::text::lemma_concat_assoc(pa + pb, a3 + fv[i as int].tag, a4);
            assert(xml_node(fv[i as int], level as nat) == (pa + pb) + pc);
            assert(out@ == out0 + xml_node(fv[i as int], level as nat));
        }
        i = i + 1;
    }
    proof {
        if n == 0 {
            assert(xml_forest(fv, level as nat) =~= Seq::<char>::empty());
        }
    }
}

/// Renders `nodes` as XML-like markup starting at indent `level`;
/// siblings are joined by single newlines and no trailing newline is
/// added.  Neither tags nor content are escaped.
pub fn to_xml_recursive(nodes: &[Node], indent: usize) -> (res: String)
    requires
        2 * (indent + forest_height(forest_view(nodes@))) <= usize::MAX,
    ensures
        res@ == xml_forest(forest_view(nodes@), indent as nat),
{
    let mut out = String::new();
    xml_into(&mut out, nodes, indent);
    out
}

} // verus!
