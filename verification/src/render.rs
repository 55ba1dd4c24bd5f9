//! The top-level one-call renderers and their shared laws.

use vstd::prelude::*;
use crate::json::{json_spec, json_stringify, value_height};
use crate::markdown::{md_forest, to_markdown_recursive};
use crate::node::{forest_height, forest_view, Node, NodeView};
use crate::object_tree::{build_object, to_prompt_tree};
use crate::toon::{to_toon_recursive, toon_forest};
use crate::xml::{to_xml_recursive, xml_forest};
use crate::yaml::{yaml_spec, yaml_stringify};

verus! {

/// Renders the node sequence as XML-like markup from indent zero.
pub fn render_xml(nodes: &[Node]) -> (res: String)
    requires
        2 * forest_height(forest_view(nodes@)) <= usize::MAX,
    ensures
        res@ == xml_forest(forest_view(nodes@), 0),
{
    to_xml_recursive(nodes, 0)
}

/// Renders the node sequence as pretty-printed JSON of its object
/// tree.
pub fn render_json(nodes: &[Node]) -> (res: String)
    requires
        2 * value_height(build_object(forest_view(nodes@))) <= usize::MAX,
    ensures
        res@ == json_spec(build_object(forest_view(nodes@)), 0),
{
    let tree = to_prompt_tree(nodes);
    json_stringify(&tree, 0)
}

/// Renders the node sequence as YAML of its object tree.
pub fn render_yaml(nodes: &[Node]) -> (res: String)
    requires
        2 * value_height(build_object(forest_view(nodes@))) <= usize::MAX,
    ensures
        res@ == yaml_spec(build_object(forest_view(nodes@)), 0),
{
    let tree = to_prompt_tree(nodes);
    yaml_stringify(&tree, 0)
}

/// Renders the node sequence as Markdown with headings from depth one.
pub fn render_markdown(nodes: &[Node]) -> (res: String)
    requires
        1 + forest_height(forest_view(nodes@)) <= usize::MAX,
    ensures
        res@ == md_forest(forest_view(nodes@), 1),
{
    to_markdown_recursive(nodes, 1)
}

/// Renders the node sequence in TOON form from indent zero.
pub fn render_toon(nodes: &[Node]) -> (res: String)
    requires
        2 * forest_height(forest_view(nodes@)) <= usize::MAX,
    ensures
        res@ == toon_forest(forest_view(nodes@), 0),
{
    to_toon_recursive(nodes, 0)
}

/// Every renderer is deterministic: its output is a function of the
/// tree's view alone, so rendering equal trees — in particular the
/// same tree twice — gives byte-identical text.
pub proof fn lemma_render_deterministic(s1: Seq<NodeView>, s2: Seq<NodeView>, level: nat)
    requires
        s1 == s2,
    ensures
        xml_forest(s1, level) == xml_forest(s2, level),
        md_forest(s1, level) == md_forest(s2, level),
        toon_forest(s1, level) == toon_forest(s2, level),
        json_spec(build_object(s1), level) == json_spec(build_object(s2), level),
        yaml_spec(build_object(s1), level) == yaml_spec(build_object(s2), level),
{
}

/// The JSON and YAML renders of a tree describe one and the same
/// logical object: both are functions of the object tree alone, which
/// is built once from the siblings.  Trees whose object trees agree —
/// same keys, same order, same duplicate collapsing — render equally
/// under both formats.
pub proof fn lemma_json_yaml_same_object(s1: Seq<NodeView>, s2: Seq<NodeView>)
    requires
        build_object(s1) == build_object(s2),
    ensures
        json_spec(build_object(s1), 0) == json_spec(build_object(s2), 0),
        yaml_spec(build_object(s1), 0) == yaml_spec(build_object(s2), 0),
{
}

} // verus!
