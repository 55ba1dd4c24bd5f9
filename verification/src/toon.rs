//! The TOON renderer: a compact, indentation- and delimiter-based
//! notation with three structural shapes per sibling group — leaf
//! line, compact list, table — plus a nested fallback.

use vstd::prelude::*;
use crate::node::{forest_height, forest_view, lemma_forest_height, node_height, Node, NodeView};
use crate::number::{is_f64_literal, spec_is_f64_literal};
use crate::text::{contains_char, dec_str, push_dec, push_replaced, push_spaces, replace_char, spaces};

verus! {

/// A leaf line's value: quoted with newlines written out as `\n` when
/// the content holds a newline, else the content verbatim.
pub open spec fn toon_leaf_value(content: Seq<char>) -> Seq<char> {
    if content.contains('\n') {
        seq!['"'] + replace_char(content, '\n', seq!['\\', 'n']) + seq!['"']
    } else {
        content
    }
}

/// A compact-list value: quoted with inner quotes doubled when the
/// content holds a comma or newline, else verbatim.
pub open spec fn toon_csv_value(content: Seq<char>) -> Seq<char> {
    if content.contains(',') || content.contains('\n') {
        seq!['"'] + replace_char(content, '"', seq!['"', '"']) + seq!['"']
    } else {
        content
    }
}

/// A table cell's value: booleans and float-shaped text stay bare;
/// otherwise quoted with inner quotes doubled when the content holds a
/// comma, newline or quote, else verbatim.
pub open spec fn toon_cell_value(content: Seq<char>) -> Seq<char> {
    if content == seq!['t', 'r', 'u', 'e'] || content == seq!['f', 'a', 'l', 's', 'e']
        || spec_is_f64_literal(content) {
        content
    } else if content.contains(',') || content.contains('\n') || content.contains('"') {
        seq!['"'] + replace_char(content, '"', seq!['"', '"']) + seq!['"']
    } else {
        content
    }
}

/// The compact-list shape: a non-empty child group, every child a
/// leaf, all children sharing one tag.
pub open spec fn toon_compact(cs: Seq<NodeView>) -> bool {
    &&& cs.len() > 0
    &&& forall|i: int| 0 <= i < cs.len() ==> (#[trigger] cs[i]).children.len() == 0
    &&& forall|i: int| 0 <= i < cs.len() ==> (#[trigger] cs[i]).tag == cs[0].tag
}

/// The table shape: a non-empty child group, every child itself a
/// branch, all children sharing one tag.
pub open spec fn toon_table(cs: Seq<NodeView>) -> bool {
    &&& cs.len() > 0
    &&& forall|i: int| 0 <= i < cs.len() ==> (#[trigger] cs[i]).children.len() > 0
    &&& forall|i: int| 0 <= i < cs.len() ==> (#[trigger] cs[i]).tag == cs[0].tag
}

/// The table's column schema: the tags of the first child's children,
/// in order.
pub open spec fn table_columns(cs: Seq<NodeView>) -> Seq<Seq<char>> {
    cs[0].children.map_values(|c: NodeView| c.tag)
}

/// The index of the first node tagged `tag`, or -1.
pub open spec fn find_tag(gcs: Seq<NodeView>, tag: Seq<char>) -> int
    decreases gcs.len(),
{
    if gcs.len() == 0 {
        -1
    } else if gcs[0].tag == tag {
        0
    } else {
        let r = find_tag(gcs.subrange(1, gcs.len() as int), tag);
        if r == -1 {
            -1
        } else {
            r + 1
        }
    }
}

/// `find_tag` yields -1 exactly when no node has the tag, and
/// otherwise the position of the first that does.
pub proof fn lemma_find_tag(gcs: Seq<NodeView>, tag: Seq<char>)
    ensures
        find_tag(gcs, tag) == -1 ==> forall|j: int|
            0 <= j < gcs.len() ==> (#[trigger] gcs[j]).tag != tag,
        find_tag(gcs, tag) != -1 ==> {
            let r = find_tag(gcs, tag);
            &&& 0 <= r < gcs.len()
            &&& gcs[r].tag == tag
            &&& forall|j: int| 0 <= j < r ==> (#[trigger] gcs[j]).tag != tag
        },
    decreases gcs.len(),
{
    if gcs.len() > 0 {
        let rest = gcs.subrange(1, gcs.len() as int);
        lemma_find_tag(rest, tag);
        assert(forall|j: int| 1 <= j < gcs.len() ==> rest[j - 1] == #[trigger] gcs[j]);
    }
}

/// One table cell: the matching grandchild's formatted content, or
/// empty when no grandchild carries the column's tag.
pub open spec fn toon_cell(gcs: Seq<NodeView>, col: Seq<char>) -> Seq<char> {
    let i = find_tag(gcs, col);
    if i == -1 {
        Seq::empty()
    } else {
        toon_cell_value(gcs[i].content)
    }
}

/// The compact list's values, joined by commas.
pub open spec fn toon_csv_list(cs: Seq<NodeView>) -> Seq<char>
    decreases cs,
{
    if cs.len() == 0 {
        Seq::empty()
    } else if cs.len() == 1 {
        toon_csv_value(cs[0].content)
    } else {
        toon_csv_value(cs[0].content) + seq![','] + toon_csv_list(cs.subrange(1, cs.len() as int))
    }
}

/// The column names, joined by commas.
pub open spec fn toon_col_list(cols: Seq<Seq<char>>) -> Seq<char>
    decreases cols.len(),
{
    if cols.len() == 0 {
        Seq::empty()
    } else if cols.len() == 1 {
        cols[0]
    } else {
        cols[0] + seq![','] + toon_col_list(cols.subrange(1, cols.len() as int))
    }
}

/// One row's cells, joined by commas.
pub open spec fn toon_cells(gcs: Seq<NodeView>, cols: Seq<Seq<char>>) -> Seq<char>
    decreases cols.len(),
{
    if cols.len() == 0 {
        Seq::empty()
    } else if cols.len() == 1 {
        toon_cell(gcs, cols[0])
    } else {
        toon_cell(gcs, cols[0]) + seq![','] + toon_cells(gcs, cols.subrange(1, cols.len() as int))
    }
}

/// One table row: two spaces deeper than its header, the cells joined
/// by commas.
pub open spec fn toon_row(c: NodeView, cols: Seq<Seq<char>>, indent: nat) -> Seq<char> {
    spaces(2 * indent + 2) + toon_cells(c.children, cols) + seq!['\n']
}

/// The table rows, one per child.
pub open spec fn toon_rows(cs: Seq<NodeView>, cols: Seq<Seq<char>>, indent: nat) -> Seq<char>
    decreases cs,
{
    if cs.len() == 0 {
        Seq::empty()
    } else {
        toon_row(cs[0], cols, indent) + toon_rows(cs.subrange(1, cs.len() as int), cols, indent)
    }
}

/// The TOON rendering of one node at `indent`: a leaf line, a compact
/// list, a table, or a key line followed by the children one level
/// deeper.  The compact-list shape is checked before the table shape.
pub open spec fn toon_node(n: NodeView, indent: nat) -> Seq<char>
    decreases n,
{
    let sp = spaces(2 * indent);
    if n.children.len() == 0 {
        sp + n.tag + seq![':', ' '] + toon_leaf_value(n.content) + seq!['\n']
    } else if toon_compact(n.children) {
        sp + n.tag + seq!['['] + dec_str(n.children.len()) + seq![']', ':', ' '] + toon_csv_list(
            n.children,
        ) + seq!['\n']
    } else if toon_table(n.children) {
        sp + n.tag + seq!['['] + dec_str(n.children.len()) + seq![']', '{'] + toon_col_list(
            table_columns(n.children),
        ) + seq!['}', ':', '\n'] + toon_rows(n.children, table_columns(n.children), indent)
    } else {
        sp + n.tag + seq![':', '\n'] + toon_forest(n.children, indent + 1)
    }
}

/// The TOON rendering of a forest: the nodes' renderings, one after
/// the other.
pub open spec fn toon_forest(s: Seq<NodeView>, indent: nat) -> Seq<char>
    decreases s,
{
    if s.len() == 0 {
        Seq::empty()
    } else {
        toon_node(s[0], indent) + toon_forest(s.subrange(1, s.len() as int), indent)
    }
}

/// The compact-list rule never fires when some child is itself a
/// branch, the table rule never fires when some child is a leaf, and
/// no child group fits both shapes at once.
pub proof fn lemma_toon_shapes_exclusive(cs: Seq<NodeView>)
    ensures
        (exists|i: int| 0 <= i < cs.len() && (#[trigger] cs[i]).children.len() > 0)
            ==> !toon_compact(cs),
        (exists|i: int| 0 <= i < cs.len() && (#[trigger] cs[i]).children.len() == 0)
            ==> !toon_table(cs),
        !(toon_compact(cs) && toon_table(cs)),
{
    if toon_compact(cs) && toon_table(cs) {
        assert(cs[0].children.len() == 0);
        assert(cs[0].children.len() > 0);
    }
}

/// The sequence of views of a sequence of strings.
pub open spec fn strs_view(s: Seq<String>) -> Seq<Seq<char>> {
    s.map_values(|x: String| x@)
}

/// Unrolls `toon_forest` at position `i`.
proof fn lemma_toon_forest_skip(s: Seq<NodeView>, indent: nat, i: int)
    requires
        0 <= i < s.len(),
    ensures
        toon_forest(s.skip(i), indent) == toon_node(s[i], indent) + toon_forest(
            s.skip(i + 1),
            indent,
        ),
{
    let rest = s.skip(i);
    assert(rest.len() == s.len() - i);
    assert(rest[0] == s[i]);
    assert(rest.subrange(1, rest.len() as int) =~= s.skip(i + 1));
}

/// Unrolls `toon_rows` at position `i`.
proof fn lemma_toon_rows_skip(cs: Seq<NodeView>, cols: Seq<Seq<char>>, indent: nat, i: int)
    requires
        0 <= i < cs.len(),
    ensures
        toon_rows(cs.skip(i), cols, indent) == toon_row(cs[i], cols, indent) + toon_rows(
            cs.skip(i + 1),
            cols,
            indent,
        ),
{
    let rest = cs.skip(i);
    assert(rest.len() == cs.len() - i);
    assert(rest[0] == cs[i]);
    assert(rest.subrange(1, rest.len() as int) =~= cs.skip(i + 1));
}

/// Unrolls `toon_csv_list` at position `i`.
proof fn lemma_toon_csv_list_skip(cs: Seq<NodeView>, i: int)
    requires
        0 <= i < cs.len(),
    ensures
        i < cs.len() - 1 ==> toon_csv_list(cs.skip(i)) == toon_csv_value(cs[i].content)
            + seq![','] + toon_csv_list(cs.skip(i + 1)),
        i == cs.len() - 1 ==> toon_csv_list(cs.skip(i)) == toon_csv_value(cs[i].content),
{
    let rest = cs.skip(i);
    assert(rest.len() == cs.len() - i);
    assert(rest[0] == cs[i]);
    if i < cs.len() - 1 {
        assert(rest.subrange(1, rest.len() as int) =~= cs.skip(i + 1));
    }
}

/// Unrolls `toon_col_list` at position `i`.
proof fn lemma_toon_col_list_skip(cols: Seq<Seq<char>>, i: int)
    requires
        0 <= i < cols.len(),
    ensures
        i < cols.len() - 1 ==> toon_col_list(cols.skip(i)) == cols[i] + seq![','] + toon_col_list(
            cols.skip(i + 1),
        ),
        i == cols.len() - 1 ==> toon_col_list(cols.skip(i)) == cols[i],
{
    let rest = cols.skip(i);
    assert(rest.len() == cols.len() - i);
    assert(rest[0] == cols[i]);
    if i < cols.len() - 1 {
        assert(rest.subrange(1, rest.len() as int) =~= cols.skip(i + 1));
    }
}

/// Unrolls `toon_cells` at position `i`.
proof fn lemma_toon_cells_skip(gcs: Seq<NodeView>, cols: Seq<Seq<char>>, i: int)
    requires
        0 <= i < cols.len(),
    ensures
        i < cols.len() - 1 ==> toon_cells(gcs, cols.skip(i)) == toon_cell(gcs, cols[i])
            + seq![','] + toon_cells(gcs, cols.skip(i + 1)),
        i == cols.len() - 1 ==> toon_cells(gcs, cols.skip(i)) == toon_cell(gcs, cols[i]),
{
    let rest = cols.skip(i);
    assert(rest.len() == cols.len() - i);
    assert(rest[0] == cols[i]);
    if i < cols.len() - 1 {
        assert(rest.subrange(1, rest.len() as int) =~= cols.skip(i + 1));
    }
}

/// Whether the node renders as a leaf: no children at all, or none in
/// its vector.
fn children_empty(n: &Node) -> (r: bool)
    ensures
        r == (n@.children.len() == 0),
{
    match &n.children {
        Option::Some(v) => {
            proof {
                crate::node::lemma_forest_view(v@);
            }
            v.len() == 0
        },
        Option::None => true,
    }
}

/// Whether every child is itself a leaf.
fn all_children_are_leaves(cs: &Vec<Node>) -> (r: bool)
    ensures
        r == (forall|i: int|
            0 <= i < cs@.len() ==> (#[trigger] forest_view(cs@)[i]).children.len() == 0),
{
    let ghost fv = forest_view(cs@);
    proof {
        crate::node::lemma_forest_view(cs@);
    }
    let n = cs.len();
    let mut i: usize = 0;
    while i < n
        invariant
            i <= n,
            n == cs@.len(),
            fv == forest_view(cs@),
            fv.len() == n,
            forall|j: int| 0 <= j < n ==> fv[j] == cs@[j]@,
            forall|j: int| 0 <= j < i ==> (#[trigger] fv[j]).children.len() == 0,
        decreases n - i,
    {
        if !children_empty(&cs[i]) {
            proof {
                assert(forest_view(cs@)[i as int].children.len() != 0);
            }
            return false;
        }
        i = i + 1;
    }
    true
}

/// Whether every child has a non-empty child list of its own.
fn all_children_have_children(cs: &Vec<Node>) -> (r: bool)
    ensures
        r == (forall|i: int|
            0 <= i < cs@.len() ==> (#[trigger] forest_view(cs@)[i]).children.len() > 0),
{
    let ghost fv = forest_view(cs@);
    proof {
        crate::node::lemma_forest_view(cs@);
    }
    let n = cs.len();
    let mut i: usize = 0;
    while i < n
        invariant
            i <= n,
            n == cs@.len(),
            fv == forest_view(cs@),
            fv.len() == n,
            forall|j: int| 0 <= j < n ==> fv[j] == cs@[j]@,
            forall|j: int| 0 <= j < i ==> (#[trigger] fv[j]).children.len() > 0,
        decreases n - i,
    {
        if children_empty(&cs[i]) {
            proof {
                assert(forest_view(cs@)[i as int].children.len() == 0);
            }
            return false;
        }
        i = i + 1;
    }
    true
}

/// Whether every child carries the first child's tag.
fn all_tags_identical(cs: &Vec<Node>) -> (r: bool)
    ensures
        r == (forall|i: int|
            0 <= i < cs@.len() ==> (#[trigger] forest_view(cs@)[i]).tag == forest_view(
                cs@,
            )[0].tag),
{
    let ghost fv = forest_view(cs@);
    proof {
        crate::node::lemma_forest_view(cs@);
    }
    let n = cs.len();
    if n == 0 {
        return true;
    }
    let mut i: usize = 0;
    while i < n
        invariant
            i <= n,
            n == cs@.len(),
            n > 0,
            fv == forest_view(cs@),
            fv.len() == n,
            forall|j: int| 0 <= j < n ==> fv[j] == cs@[j]@,
            forall|j: int| 0 <= j < i ==> (#[trigger] fv[j]).tag == fv[0].tag,
        decreases n - i,
    {
        if !cs[i].tag.eq(&cs[0].tag) {
            proof {
                assert(forest_view(cs@)[i as int].tag != forest_view(cs@)[0].tag);
            }
            return false;
        }
        i = i + 1;
    }
    true
}

/// Whether `s` spells exactly `true` or `false`.
fn is_bool_lit(s: &str) -> (r: bool)
    ensures
        r == (s@ == seq!['t', 'r', 'u', 'e'] || s@ == seq!['f', 'a', 'l', 's', 'e']),
{
    let n = s.unicode_len();
    if n == 4 {
        let r = s.get_char(0) == 't' && s.get_char(1) == 'r' && s.get_char(2) == 'u' && s.get_char(
            3,
        ) == 'e';
        proof {
            if r {
                assert(s@ =~= seq!['t', 'r', 'u', 'e']);
            }
        }
        r
    } else if n == 5 {
        let r = s.get_char(0) == 'f' && s.get_char(1) == 'a' && s.get_char(2) == 'l' && s.get_char(
            3,
        ) == 's' && s.get_char(4) == 'e';
        proof {
            if r {
                assert(s@ =~= seq!['f', 'a', 'l', 's', 'e']);
            }
        }
        r
    } else {
        false
    }
}

/// Appends a quote-doubled, double-quoted copy of `content`.
fn push_quoted_doubled(out: &mut String, content: &str)
    ensures
        final(out)@ == old(out)@ + (seq!['"'] + replace_char(content@, '"', seq!['"', '"'])
            + seq!['"']),
{
    let mut r = String::new();
    r.push('"');
    r.push('"');
    proof {
        assert(r@ =~= seq!['"', '"']);
    }
    out.push('"');
    push_replaced(out, content, '"', r.as_str());
    out.push('"');
    proof {
        assert(out@ =~= old(out)@ + (seq!['"'] + replace_char(content@, '"', seq!['"', '"'])
            + seq!['"']));
    }
}

/// Appends a leaf line's value.
fn push_leaf_value(out: &mut String, content: &str)
    ensures
        final(out)@ == old(out)@ + toon_leaf_value(content@),
{
    if contains_char(content, '\n') {
        let mut r = String::new();
        r.push('\\');
        r.push('n');
        proof {
            assert(r@ =~= seq!['\\', 'n']);
        }
        out.push('"');
        push_replaced(out, content, '\n', r.as_str());
        out.push('"');
        proof {
            assert(out@ =~= old(out)@ + toon_leaf_value(content@));
        }
    } else {
        out.append(content);
    }
}

/// Appends a compact-list value.
fn push_csv_value(out: &mut String, content: &str)
    ensures
        final(out)@ == old(out)@ + toon_csv_value(content@),
{
    let quote = contains_char(content, ',') || contains_char(content, '\n');
    if quote {
        push_quoted_doubled(out, content);
    } else {
        out.append(content);
    }
}

/// Appends a table cell's value.
fn push_cell_value(out: &mut String, content: &str)
    ensures
        final(out)@ == old(out)@ + toon_cell_value(content@),
{
    let bare = is_bool_lit(content) || is_f64_literal(content);
    if bare {
        out.append(content);
    } else {
        let quote = contains_char(content, ',') || contains_char(content, '\n') || contains_char(
            content,
            '"',
        );
        if quote {
            push_quoted_doubled(out, content);
        } else {
            out.append(content);
        }
    }
}

/// Finds the first child tagged `tag`, if any.
fn find_child_tag(gcs: &Vec<Node>, tag: &String) -> (r: Option<usize>)
    ensures
        match r {
            Option::Some(ix) => ix as int == find_tag(forest_view(gcs@), tag@),
            Option::None => find_tag(forest_view(gcs@), tag@) == -1,
        },
{
    let ghost gv = forest_view(gcs@);
    proof {
        crate::node::lemma_forest_view(gcs@);
        lemma_find_tag(gv, tag@);
    }
    let n = gcs.len();
    let mut j: usize = 0;
    while j < n
        invariant
            j <= n,
            n == gcs@.len(),
            gv == forest_view(gcs@),
            gv.len() == n,
            forall|m: int| 0 <= m < n ==> gv[m] == gcs@[m]@,
            forall|m: int| 0 <= m < j ==> (#[trigger] gv[m]).tag != tag@,
        decreases n - j,
    {
        if gcs[j].tag.eq(tag) {
            proof {
                assert(gv[j as int].tag == tag@);
                lemma_find_tag(gv, tag@);
                if find_tag(gv, tag@) == -1 {
                    assert(gv[j as int].tag != tag@);
                }
                assert(find_tag(gv, tag@) == j as int);
            }
            return Option::Some(j);
        }
        j = j + 1;
    }
    proof {
        lemma_find_tag(gv, tag@);
        if find_tag(gv, tag@) != -1 {
            assert(gv[find_tag(gv, tag@)].tag == tag@);
        }
    }
    Option::None
}

/// Appends one table row for `child` under the given column schema.
fn push_row(out: &mut String, child: &Node, cols: &Vec<String>, indent: usize)
    requires
        2 * indent + 2 <= usize::MAX,
        child@.children.len() > 0,
    ensures
        final(out)@ == old(out)@ + toon_row(child@, strs_view(cols@), indent as nat),
{
    let ghost colv = strs_view(cols@);
    push_spaces(out, 2 * indent + 2);
    let ghost o1 = out@;
    match &child.children {
        Option::Some(gcs) => {
            let ghost gv = forest_view(gcs@);
            proof {
                crate::node::lemma_forest_view(gcs@);
                assert(gv == child@.children);
                assert(colv.skip(0) =~= colv);
            }
            let m = cols.len();
            let mut k: usize = 0;
            while k < m
                invariant
                    k <= m,
                    m == cols@.len(),
                    colv == strs_view(cols@),
                    colv.len() == m,
                    gv == forest_view(gcs@),
                    gv.len() == gcs@.len(),
                    forall|q: int| 0 <= q < gcs@.len() ==> gv[q] == gcs@[q]@,
                    out@ + toon_cells(gv, colv.skip(k as int)) == o1 + toon_cells(gv, colv),
                decreases m - k,
            {
                proof {
                    lemma_toon_cells_skip(gv, colv, k as int);
                    assert(colv[k as int] == cols@[k as int]@);
                }
                let ghost o2 = out@;
                match find_child_tag(gcs, &cols[k]) {
                    Option::Some(ix) => {
                        proof {
                            lemma_find_tag(gv, cols@[k as int]@);
                        }
                        push_cell_value(out, gcs[ix].content.as_str());
                        proof {
                            assert(out@ == o2 + toon_cell(gv, colv[k as int]));
                        }
                    },
                    Option::None => {
                        proof {
                            assert(toon_cell(gv, colv[k as int]) =~= Seq::<char>::empty());
                            assert(out@ =~= o2 + toon_cell(gv, colv[k as int]));
                        }
                    },
                }
                if k + 1 < m {
                    out.push(',');
                }
                proof {
                    if (k as int) < colv.len() - 1 {
                        assert(out@ =~= o2 + (toon_cell(gv, colv[k as int]) + seq![',']));
                    }
                }
                k = k + 1;
            }
            proof {
                assert(colv.skip(m as int) =~= Seq::<Seq<char>>::empty());
                assert(toon_cells(gv, colv.skip(m as int)) =~= Seq::<char>::empty());
            }
        },
        Option::None => {
            proof {
                assert(false);
            }
        },
    }
    out.push('\n');
    proof {
        assert(out@ =~= old(out)@ + toon_row(child@, colv, indent as nat));
    }
}

/// Appends the TOON rendering of `nodes` at `indent` to `out`.
#[verifier::rlimit(100)]
fn toon_into(out: &mut String, nodes: &[Node], indent: usize)
    requires
        2 * (indent + forest_height(forest_view(nodes@))) <= usize::MAX,
    ensures
        final(out)@ == old(out)@ + toon_forest(forest_view(nodes@), indent as nat),
    decreases nodes@,
{
    let ghost fv = forest_view(nodes@);
    proof {
        crate::node::lemma_forest_view(nodes@);
        assert(fv.skip(0) =~= fv);
    }
    let n = nodes.len();
    let mut i: usize = 0;
    while i < n
        invariant
            i <= n,
            n == nodes@.len(),
            fv == forest_view(nodes@),
            fv.len() == n,
            forall|j: int| 0 <= j < n ==> fv[j] == nodes@[j]@,
            2 * (indent + forest_height(fv)) <= usize::MAX,
            out@ + toon_forest(fv.skip(i as int), indent as nat) == old(out)@ + toon_forest(
                fv,
                indent as nat,
            ),
        decreases n - i,
    {
        proof {
            lemma_forest_height(fv);
            assert(node_height(fv[i as int]) <= forest_height(fv));
            assert(node_height(fv[i as int]) >= 1);
            lemma_toon_forest_skip(fv, indent as nat, i as int);
        }
        let node = &nodes[i];
        let ghost o0 = out@;
        let ghost nv = fv[i as int];
        match &node.children {
            Option::Some(cs) if cs.len() > 0 => {
                proof {
                    assert(forest_view(cs@) == nv.children);
                    crate::node::lemma_forest_view(cs@);
                    assert(nv.children.len() > 0);
                    lemma_forest_height(nv.children);
                    assert(node_height(nv.children[0]) >= 1);
                    assert(node_height(nv) == 1 + forest_height(nv.children));
                }
                let ghost csv = nv.children;
                let leaves = all_children_are_leaves(cs);
                let tags = all_tags_identical(cs);
                if leaves && tags {
                    proof {
                        assert(toon_compact(csv));
                    }
                    push_spaces(out, 2 * indent);
                    out.append(node.tag.as_str());
                    out.push('[');
                    push_dec(out, cs.len());
                    out.push(']');
                    out.push(':');
                    out.push(' ');
                    let ghost pa = spaces(2 * indent as nat) + nv.tag + seq!['['] + dec_str(
                        csv.len(),
                    ) + seq![']', ':', ' '];
                    let ghost o1 = out@;
                    proof {
                        assert(o1 =~= o0 + pa);
                        assert(csv.skip(0) =~= csv);
                    }
                    let m = cs.len();
                    let mut j: usize = 0;
                    while j < m
                        invariant
                            j <= m,
                            m == cs@.len(),
                            csv == forest_view(cs@),
                            csv.len() == m,
                            forall|q: int| 0 <= q < m ==> csv[q] == cs@[q]@,
                            out@ + toon_csv_list(csv.skip(j as int)) == o1 + toon_csv_list(csv),
                        decreases m - j,
                    {
                        proof {
                            lemma_toon_csv_list_skip(csv, j as int);
                        }
                        let ghost o2 = out@;
                        push_csv_value(out, cs[j].content.as_str());
                        if j + 1 < m {
                            out.push(',');
                            proof {
                                assert(out@ =~= o2 + (toon_csv_value(csv[j as int].content)
                                    + seq![',']));
                            }
                        }
                        j = j + 1;
                    }
                    proof {
                        assert(csv.skip(m as int) =~= Seq::<NodeView>::empty());
                        assert(toon_csv_list(csv.skip(m as int)) =~= Seq::<char>::empty());
                        assert(out@ + toon_csv_list(csv.skip(m as int)) =~= out@);
                    }
                    out.push('\n');
                    proof {
                        let pb = toon_csv_list(csv);
                        assert(out@ =~= ((o0 + pa) + pb) + seq!['\n']);
                        crate::text::lemma_concat_assoc(o0, pa, pb);
                        crate::text::lemma_concat_assoc(o0, pa + pb, seq!['\n']);
                        assert(toon_node(nv, indent as nat) == (pa + pb) + seq!['\n']);
                        assert(out@ == o0 + toon_node(nv, indent as nat));
                    }
                } else {
                    let have = all_children_have_children(cs);
                    if have && tags {
                        proof {
                            assert(toon_table(csv));
                            assert(!toon_compact(csv));
                        }
                        let first = &cs[0];
                        let ghost colv = table_columns(csv);
                        let mut cols: Vec<String> = Vec::new();
                        match &first.children {
                            Option::Some(gc) => {
                                proof {
                                    crate::node::lemma_forest_view(gc@);
                                    assert(forest_view(gc@) == csv[0].children);
                                }
                                let g = gc.len();
                                let mut q: usize = 0;
                                while q < g
                                    invariant
                                        q <= g,
                                        g == gc@.len(),
                                        cols@.len() == q,
                                        colv == table_columns(csv),
                                        csv[0].children == forest_view(gc@),
                                        forest_view(gc@).len() == g,
                                        forall|t: int|
                                            0 <= t < g ==> forest_view(gc@)[t] == gc@[t]@,
                                        forall|t: int| 0 <= t < q ==> cols@[t]@ == colv[t],
                                    decreases g - q,
                                {
                                    cols.push(gc[q].tag.clone());
                                    q = q + 1;
                                }
                            },
                            Option::None => {
                                proof {
                                    assert(csv[0].children.len() > 0);
                                    assert(false);
                                }
                            },
                        }
                        proof {
                            assert(strs_view(cols@) =~= colv);
                        }
                        push_spaces(out, 2 * indent);
                        out.append(node.tag.as_str());
                        out.push('[');
                        push_dec(out, cs.len());
                        out.push(']');
                        out.push('{');
                        let ghost pa = spaces(2 * indent as nat) + nv.tag + seq!['['] + dec_str(
                            csv.len(),
                        ) + seq![']', '{'];
                        let ghost o1 = out@;
                        proof {
                            assert(o1 =~= o0 + pa);
                            assert(colv.skip(0) =~= colv);
                        }
                        let m2 = cols.len();
                        let mut k: usize = 0;
                        while k < m2
                            invariant
                                k <= m2,
                                m2 == cols@.len(),
                                colv == strs_view(cols@),
                                colv.len() == m2,
                                forall|t: int| 0 <= t < m2 ==> cols@[t]@ == colv[t],
                                out@ + toon_col_list(colv.skip(k as int)) == o1 + toon_col_list(
                                    colv,
                                ),
                            decreases m2 - k,
                        {
                            proof {
                                lemma_toon_col_list_skip(colv, k as int);
                            }
                            let ghost o2 = out@;
                            out.append(cols[k].as_str());
                            if k + 1 < m2 {
                                out.push(',');
                                proof {
                                    assert(out@ =~= o2 + (colv[k as int] + seq![',']));
                                }
                            }
                            k = k + 1;
                        }
                        proof {
                            assert(colv.skip(m2 as int) =~= Seq::<Seq<char>>::empty());
                            assert(toon_col_list(colv.skip(m2 as int)) =~= Seq::<char>::empty());
                            assert(out@ + toon_col_list(colv.skip(m2 as int)) =~= out@);
                        }
                        out.push('}');
                        out.push(':');
                        out.push('\n');
                        let ghost o3 = out@;
                        proof {
                            assert(o3 =~= (o1 + toon_col_list(colv)) + seq!['}', ':', '\n']);
                            assert(csv.skip(0) =~= csv);
                        }
                        let n2 = cs.len();
                        let mut j2: usize = 0;
                        while j2 < n2
                            invariant
                                j2 <= n2,
                                n2 == cs@.len(),
                                csv == forest_view(cs@),
                                csv.len() == n2,
                                forall|q: int| 0 <= q < n2 ==> csv[q] == cs@[q]@,
                                toon_table(csv),
                                colv == strs_view(cols@),
                                2 * indent + 2 <= usize::MAX,
                                out@ + toon_rows(csv.skip(j2 as int), colv, indent as nat) == o3
                                    + toon_rows(csv, colv, indent as nat),
                            decreases n2 - j2,
                        {
                            proof {
                                lemma_toon_rows_skip(csv, colv, indent as nat, j2 as int);
                                assert(csv[j2 as int].children.len() > 0);
                            }
                            let ghost o4 = out@;
                            push_row(out, &cs[j2], &cols, indent);
                            proof {
                                assert(out@ == o4 + toon_row(csv[j2 as int], colv, indent as nat));
                            }
                            j2 = j2 + 1;
                        }
                        proof {
                            assert(csv.skip(n2 as int) =~= Seq::<NodeView>::empty());
                            assert(toon_rows(csv.skip(n2 as int), colv, indent as nat)
                                =~= Seq::<char>::empty());
                            assert(out@ + toon_rows(csv.skip(n2 as int), colv, indent as nat)
                                =~= out@);
                            let pb = toon_col_list(colv);
                            let pc = seq!['}', ':', '\n'];
                            let pd = toon_rows(csv, colv, indent as nat);
                            assert(out@ == ((o0 + pa) + pb + pc) + pd);
                            crate::text::lemma_concat_assoc(o0, pa, pb);
                            crate::text::lemma_concat_assoc(o0, pa + pb, pc);
                            crate::text::lemma_concat_assoc(o0, (pa + pb) + pc, pd);
                            assert(toon_node(nv, indent as nat) == (((pa + pb) + pc) + pd));
                            assert(out@ == o0 + toon_node(nv, indent as nat));
                        }
                    } else {
                        proof {
                            assert(!toon_compact(csv));
                            assert(!toon_table(csv));
                        }
                        push_spaces(out, 2 * indent);
                        out.append(node.tag.as_str());
                        out.push(':');
                        out.push('\n');
                        let ghost pa = spaces(2 * indent as nat) + nv.tag + seq![':', '\n'];
                        let ghost o1 = out@;
                        proof {
                            assert(o1 =~= o0 + pa);
                            assert(decreases_to!(nodes@ => nodes@[i as int]));
                            assert(decreases_to!(nodes@[i as int] => nodes@[i as int].children));
                            assert(decreases_to!(nodes@[i as int].children => *cs));
                            assert(decreases_to!(*cs => cs@));
                        }
                        toon_into(out, cs.as_slice(), indent + 1);
                        proof {
                            let pb = toon_forest(csv, indent as nat + 1);
                            assert(out@ == (o0 + pa) + pb);
                            crate::text::lemma_concat_assoc(o0, pa, pb);
                            assert(toon_node(nv, indent as nat) == pa + pb);
                            assert(out@ == o0 + toon_node(nv, indent as nat));
                        }
                    }
                }
            },
            _ => {
                proof {
                    assert(nv.children.len() == 0);
                }
                push_spaces(out, 2 * indent);
                out.append(node.tag.as_str());
                out.push(':');
                out.push(' ');
                let ghost pa = spaces(2 * indent as nat) + nv.tag + seq![':', ' '];
                let ghost o1 = out@;
                proof {
                    assert(o1 =~= o0 + pa);
                }
                push_leaf_value(out, node.content.as_str());
                out.push('\n');
                proof {
                    let pb = toon_leaf_value(nv.content);
                    assert(out@ =~= ((o0 + pa) + pb) + seq!['\n']);
                    crate::text::lemma_concat_assoc(o0, pa, pb);
                    crate::text::lemma_concat_assoc(o0, pa + pb, seq!['\n']);
                    assert(toon_node(nv, indent as nat) == (pa + pb) + seq!['\n']);
                    assert(out@ == o0 + toon_node(nv, indent as nat));
                }
            },
        }
        i = i + 1;
    }
    proof {
        assert(fv.skip(n as int) =~= Seq::<NodeView>::empty());
        if n == 0 {
            assert(toon_forest(fv, indent as nat) =~= Seq::<char>::empty());
        }
    }
}

/// Renders `nodes` in TOON form at `indent`: a line per leaf, compact
/// lists and tables for uniform child groups, nesting otherwise.
pub fn to_toon_recursive(nodes: &[Node], indent: usize) -> (res: String)
    requires
        2 * (indent + forest_height(forest_view(nodes@))) <= usize::MAX,
    ensures
        res@ == toon_forest(forest_view(nodes@), indent as nat),
{
    let mut out = String::new();
    toon_into(&mut out, nodes, indent);
    proof {
        assert(out@ =~= toon_forest(forest_view(nodes@), indent as nat));
    }
    out
}

} // verus!
