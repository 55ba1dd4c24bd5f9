use prompt_render::{
    calculate_tokens, json_stringify, to_markdown_recursive, to_prompt_tree, to_toon_recursive,
    to_xml_recursive, yaml_stringify, Node,
};

fn mock_node(tag: &str, content: &str) -> Node {
    Node {
        id: "test".to_string(),
        tag: tag.to_string(),
        content: content.to_string(),
        is_list: None,
        children: None,
    }
}

#[test]
fn test_calculate_tokens() {
    assert_eq!(calculate_tokens("Hello world"), 3);
}

#[test]
fn test_fast_json_order() {
    let nodes = vec![
        mock_node("Z_LAST", "Content"),
        mock_node("A_FIRST", "Content"),
    ];
    let tree = to_prompt_tree(&nodes);
    let json_str = json_stringify(&tree, 0);
    let first_pos = json_str.find("Z_LAST").unwrap();
    let second_pos = json_str.find("A_FIRST").unwrap();
    assert!(
        first_pos < second_pos,
        "Keys should preserve insertion order"
    );
}

#[test]
fn test_fast_yaml_basic() {
    let nodes = vec![mock_node("ROLE", "Assistant")];
    let tree = to_prompt_tree(&nodes);
    let yaml = yaml_stringify(&tree, 0);
    assert!(yaml.contains("ROLE: \"Assistant\""));
}

#[test]
fn test_to_xml_recursive() {
    let nodes = vec![
        mock_node("ROLE", "Assistant"),
        Node {
            id: "2".to_string(),
            tag: "NESTED".to_string(),
            content: "".to_string(),
            is_list: None,
            children: Some(vec![mock_node("ITEM", "Value")]),
        },
    ];
    let result = to_xml_recursive(&nodes, 0);
    assert!(result.contains("<ROLE>Assistant</ROLE>"));
    assert!(result.contains("<NESTED>"));
    assert!(result.contains("<ITEM>Value</ITEM>"));
    // Check for NO blank lines (double newlines)
    assert!(!result.contains("\n\n"));
}

#[test]
fn test_to_markdown_recursive() {
    let nodes = vec![mock_node("TASK", "Do something")];
    let result = to_markdown_recursive(&nodes, 1);
    assert_eq!(result, "# TASK\nDo something\n\n");
}

#[test]
fn test_to_toon_recursive_simple() {
    let nodes = vec![mock_node("KEY", "Value")];
    let result = to_toon_recursive(&nodes, 0);
    assert_eq!(result, "KEY: Value\n");
}

#[test]
fn test_to_toon_recursive_compact_list() {
    let nodes = vec![Node {
        id: "1".to_string(),
        tag: "LIST".to_string(),
        content: "".to_string(),
        is_list: None,
        children: Some(vec![mock_node("ITEM", "A"), mock_node("ITEM", "B")]),
    }];
    let result = to_toon_recursive(&nodes, 0);
    assert_eq!(result, "LIST[2]: A,B\n");
}

#[test]
fn test_to_toon_recursive_table() {
    let child1 = Node {
        id: "c1".to_string(),
        tag: "ROW".to_string(),
        content: "".to_string(),
        is_list: None,
        children: Some(vec![mock_node("COL1", "V1"), mock_node("COL2", "V2")]),
    };
    let nodes = vec![Node {
        id: "p1".to_string(),
        tag: "TABLE".to_string(),
        content: "".to_string(),
        is_list: None,
        children: Some(vec![child1]),
    }];
    let result = to_toon_recursive(&nodes, 0);
    assert!(result.contains("TABLE[1]{COL1,COL2}:"));
    assert!(result.contains("V1,V2"));
}
