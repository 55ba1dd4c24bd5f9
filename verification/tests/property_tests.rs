use prompt_render::number::is_f64_literal;
use prompt_render::{
    calculate_tokens, escape_json_string, json_stringify, render_json, render_markdown,
    render_toon, render_xml, render_yaml, to_markdown_recursive, to_prompt_tree,
    to_toon_recursive, to_xml_recursive, yaml_stringify, Node,
};

fn leaf(tag: &str, content: &str) -> Node {
    Node {
        id: "test".to_string(),
        tag: tag.to_string(),
        content: content.to_string(),
        is_list: None,
        children: None,
    }
}

fn branch(tag: &str, children: Vec<Node>) -> Node {
    Node {
        id: "test".to_string(),
        tag: tag.to_string(),
        content: "".to_string(),
        is_list: None,
        children: Some(children),
    }
}

#[test]
fn test_calculate_tokens_empty() {
    assert_eq!(calculate_tokens(""), 0);
}

#[test]
fn test_calculate_tokens_multibyte() {
    // Two UTF-8 bytes, one word: ceil((3*2 + 16*1 + 23 = 45)/24) = 1.
    assert_eq!(calculate_tokens("é"), 1);
}

#[test]
fn test_calculate_tokens_whitespace_runs() {
    // 8 bytes, 2 words: (24 + 32 + 23)/24 = 3.
    assert_eq!(calculate_tokens("  a  b  "), 3);
}

#[test]
fn test_renders_are_deterministic() {
    let nodes = vec![
        leaf("A", "x"),
        branch("B", vec![leaf("C", "1"), leaf("C", "2")]),
    ];
    assert_eq!(render_xml(&nodes), render_xml(&nodes));
    assert_eq!(render_json(&nodes), render_json(&nodes));
    assert_eq!(render_yaml(&nodes), render_yaml(&nodes));
    assert_eq!(render_markdown(&nodes), render_markdown(&nodes));
    assert_eq!(render_toon(&nodes), render_toon(&nodes));
}

#[test]
fn test_xml_multiline_content() {
    let nodes = vec![leaf("KEY", "a\nb")];
    assert_eq!(to_xml_recursive(&nodes, 0), "<KEY>\n  a\n  b\n</KEY>");
}

#[test]
fn test_xml_no_blank_lines_with_blank_content() {
    let nodes = vec![branch("W", vec![leaf("KEY", "a\n\nb")])];
    let result = to_xml_recursive(&nodes, 0);
    assert!(!result.contains("\n\n"));
}

#[test]
fn test_json_exact_nested() {
    let nodes = vec![leaf("A", "1"), branch("B", vec![leaf("C", "x")])];
    let json = json_stringify(&to_prompt_tree(&nodes), 0);
    assert_eq!(json, "{\n  \"A\": \"1\",\n  \"B\": {\n    \"C\": \"x\"\n  }\n}");
}

#[test]
fn test_json_escape_specials() {
    assert_eq!(escape_json_string("a\"b\\c\nd"), "\"a\\\"b\\\\c\\nd\"");
    assert_eq!(escape_json_string("t\tr\rb\u{8}f\u{c}"), "\"t\\tr\\rb\\bf\\f\"");
}

#[test]
fn test_json_and_yaml_of_empty_forest() {
    let tree = to_prompt_tree(&[]);
    assert_eq!(json_stringify(&tree, 0), "{}");
    assert_eq!(yaml_stringify(&tree, 0), "");
}

#[test]
fn test_duplicate_tags_collapse_into_array() {
    let nodes = vec![leaf("ITEM", "A"), leaf("X", "q"), leaf("ITEM", "B")];
    let json = json_stringify(&to_prompt_tree(&nodes), 0);
    assert_eq!(
        json,
        "{\n  \"ITEM\": [\n    \"A\",\n    \"B\"\n  ],\n  \"X\": \"q\"\n}"
    );
}

#[test]
fn test_yaml_duplicate_tags() {
    let nodes = vec![leaf("ITEM", "A"), leaf("ITEM", "B")];
    let yaml = yaml_stringify(&to_prompt_tree(&nodes), 0);
    assert_eq!(yaml, "ITEM: \n- \"A\"\n- \"B\"\n");
}

#[test]
fn test_yaml_nested_object() {
    let nodes = vec![branch("P", vec![leaf("C", "x")])];
    let yaml = yaml_stringify(&to_prompt_tree(&nodes), 0);
    assert_eq!(yaml, "P: \n  C: \"x\"\n");
}

#[test]
fn test_toon_leaf_with_newline() {
    let nodes = vec![leaf("KEY", "a\nb")];
    assert_eq!(to_toon_recursive(&nodes, 0), "KEY: \"a\\nb\"\n");
}

#[test]
fn test_toon_compact_list_quoting() {
    let nodes = vec![branch("LIST", vec![leaf("ITEM", "a,b"), leaf("ITEM", "c")])];
    assert_eq!(to_toon_recursive(&nodes, 0), "LIST[2]: \"a,b\",c\n");
}

#[test]
fn test_toon_single_leaf_child_is_compact_not_table() {
    let nodes = vec![branch("LIST", vec![leaf("ITEM", "A")])];
    assert_eq!(to_toon_recursive(&nodes, 0), "LIST[1]: A\n");
}

#[test]
fn test_toon_table_cell_forms() {
    let row1 = branch("ROW", vec![leaf("COL1", "3.5"), leaf("COL2", "x,y")]);
    let row2 = branch("ROW", vec![leaf("COL1", "true"), leaf("COL2", "say \"hi\"")]);
    let nodes = vec![branch("TABLE", vec![row1, row2])];
    assert_eq!(
        to_toon_recursive(&nodes, 0),
        "TABLE[2]{COL1,COL2}:\n  3.5,\"x,y\"\n  true,\"say \"\"hi\"\"\"\n"
    );
}

#[test]
fn test_toon_table_missing_column_is_empty_cell() {
    let row1 = branch("ROW", vec![leaf("COL1", "a"), leaf("COL2", "b")]);
    let row2 = branch("ROW", vec![leaf("COL1", "c")]);
    let nodes = vec![branch("TABLE", vec![row1, row2])];
    assert_eq!(
        to_toon_recursive(&nodes, 0),
        "TABLE[2]{COL1,COL2}:\n  a,b\n  c,\n"
    );
}

#[test]
fn test_toon_mixed_children_fall_back_to_nesting() {
    let nodes = vec![branch(
        "P",
        vec![leaf("A", "1"), branch("B", vec![leaf("C", "2")])],
    )];
    assert_eq!(to_toon_recursive(&nodes, 0), "P:\n  A: 1\n  B[1]: 2\n");
}

#[test]
fn test_markdown_content_and_children_both_emitted() {
    let mut task = branch("TASK", vec![leaf("SUB", "x")]);
    task.content = "Do".to_string();
    let nodes = vec![task];
    assert_eq!(to_markdown_recursive(&nodes, 1), "# TASK\nDo\n\n## SUB\nx\n\n");
}

#[test]
fn test_empty_tag_becomes_block_only_in_object_tree() {
    let nodes = vec![leaf("", "x")];
    assert_eq!(
        json_stringify(&to_prompt_tree(&nodes), 0),
        "{\n  \"BLOCK\": \"x\"\n}"
    );
    assert_eq!(to_xml_recursive(&nodes, 0), "<>x</>");
    assert_eq!(to_toon_recursive(&nodes, 0), ": x\n");
}

#[test]
fn test_render_markdown_starts_at_level_one() {
    let nodes = vec![leaf("T", "c")];
    assert_eq!(render_markdown(&nodes), "# T\nc\n\n");
}

#[test]
fn test_float_literal_accepted_forms() {
    for s in [
        "1", "1.", "0.5", ".5", "-2e10", "+3E+4", "inf", "Infinity", "NaN", "nan", "-inf",
        "7e0", "1.25e-3",
    ] {
        assert!(is_f64_literal(s), "{} should parse as a float", s);
        assert_eq!(s.parse::<f64>().is_ok(), true, "{}", s);
    }
}

#[test]
fn test_float_literal_rejected_forms() {
    for s in ["", " ", ".", "1e", "e5", "1.2.3", "abc", "- 1", "1 ", "--1", "1e+"] {
        assert!(!is_f64_literal(s), "{} should not parse as a float", s);
        assert_eq!(s.parse::<f64>().is_ok(), false, "{}", s);
    }
}
