//! The Markdown renderer: headings from tags, content as paragraphs.

use vstd::prelude::*;
use crate::node::{forest_height, forest_view, lemma_forest_height, node_height, Node, NodeView};

verus! {

/// A run of `n` hash marks.
pub open spec fn hashes(n: nat) -> Seq<char> {
    Seq::new(n, |i: int| '#')
}

/// The Markdown rendering of one node at heading depth `level`: a
/// heading from the tag, the content as a paragraph when non-empty
/// (children or not), then the children one heading deeper.
pub open spec fn md_node(n: NodeView, level: nat) -> Seq<char>
    decreases n,
{
    hashes(level) + seq![' '] + n.tag + seq!['\n'] + (if n.content.len() > 0 {
        n.content + seq!['\n', '\n']
    } else {
        Seq::empty()
    }) + md_forest(n.children, level + 1)
}

/// The Markdown rendering of a forest: the nodes' renderings, one
/// after the other.
pub open spec fn md_forest(s: Seq<NodeView>, level: nat) -> Seq<char>
    decreases s,
{
    if s.len() == 0 {
        Seq::empty()
    } else {
        md_node(s[0], level) + md_forest(s.subrange(1, s.len() as int), level)
    }
}

/// Unrolls `md_forest` at position `i`.
proof fn lemma_md_forest_skip(s: Seq<NodeView>, level: nat, i: int)
    requires
        0 <= i < s.len(),
    ensures
        md_forest(s.skip(i), level) == md_node(s[i], level) + md_forest(s.skip(i + 1), level),
{
    let rest = s.skip(i);
    assert(rest.len() == s.len() - i);
    assert(rest[0] == s[i]);
    assert(rest.subrange(1, rest.len() as int) =~= s.skip(i + 1));
}

/// Appends `n` hash marks to `out`.
fn push_hashes(out: &mut String, n: usize)
    ensures
        final(out)@ == old(out)@ + hashes(n as nat),
{
    let mut i: usize = 0;
    while i < n
        invariant
            i <= n,
            out@ == old(out)@ + hashes(i as nat),
        decreases n - i,
    {
        out.push('#');
        proof {
            assert((old(out)@ + hashes(i as nat)).push('#') =~= old(out)@ + hashes(
                (i + 1) as nat,
            ));
        }
        i = i + 1;
    }
}

/// Appends the Markdown rendering of `nodes` at `level` to `out`.
fn md_into(out: &mut String, nodes: &[Node], level: usize)
    requires
        level + forest_height(forest_view(nodes@)) <= usize::MAX,
    ensures
        final(out)@ == old(out)@ + md_forest(forest_view(nodes@), level as nat),
    decreases nodes@,
{
    let ghost fv = forest_view(nodes@);
    proof {
        crate::node::lemma_forest_view(nodes@);
        assert(fv.skip(0) =~= fv);
    }
    let n = nodes.len();
    let mut i: usize = 0;
    while i < n
        invariant
            i <= n,
            n == nodes@.len(),
            fv == forest_view(nodes@),
            fv.len() == n,
            forall|j: int| 0 <= j < n ==> fv[j] == nodes@[j]@,
            level + forest_height(fv) <= usize::MAX,
            out@ + md_forest(fv.skip(i as int), level as nat) == old(out)@ + md_forest(
                fv,
                level as nat,
            ),
        decreases n - i,
    {
        let node = &nodes[i];
        proof {
            lemma_md_forest_skip(fv, level as nat, i as int);
            lemma_forest_height(fv);
            assert(node_height(fv[i as int]) <= forest_height(fv));
        }
        push_hashes(out, level);
        out.push(' ');
        out.append(node.tag.as_str());
        out.push('\n');
        if !node.content.as_str().is_empty() {
            out.append(node.content.as_str());
            out.push('\n');
            out.push('\n');
        }
        match &node.children {
            Option::Some(cs) => {
                if cs.len() > 0 {
                    proof {
                        assert(decreases_to!(nodes@ => nodes@[i as int]));
                        assert(decreases_to!(nodes@[i as int] => nodes@[i as int].children));
                        assert(decreases_to!(nodes@[i as int].children => cs));
                        assert(decreases_to!(*cs => cs@));
                        assert(forest_view(cs@) == fv[i as int].children);
                    }
                    md_into(out, cs.as_slice(), level + 1);
                } else {
                    proof {
                        assert(fv[i as int].children =~= Seq::<NodeView>::empty());
                        assert(md_forest(fv[i as int].children, (level + 1) as nat)
                            =~= Seq::<char>::empty());
                    }
                }
            },
            Option::None => {
                proof {
                    assert(md_forest(fv[i as int].children, (level + 1) as nat)
                        =~= Seq::<char>::empty());
                }
            },
        }
        proof {
            assert(out@ + md_forest(fv.skip(i as int + 1), level as nat) == old(out)@ + md_forest(
                fv,
                level as nat,
            ));
        }
        i = i + 1;
    }
    proof {
        assert(fv.skip(n as int) =~= Seq::<NodeView>::empty());
    }
}

/// Renders `nodes` as Markdown, headings starting at `level`.
pub fn to_markdown_recursive(nodes: &[Node], level: usize) -> (res: String)
    requires
        level + forest_height(forest_view(nodes@)) <= usize::MAX,
    ensures
        res@ == md_forest(forest_view(nodes@), level as nat),
{
    let mut out = String::new();
    md_into(&mut out, nodes, level);
    out
}

} // verus!
