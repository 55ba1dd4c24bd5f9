//! Renderers for a hierarchical prompt tree.
//!
//! A tree of [`node::Node`] values can be rendered into several textual
//! forms; a token-count estimate for raw text is provided as well.

pub mod node;
pub mod text;
pub mod tokens;
pub mod markdown;
pub mod xml;
pub mod object_tree;
pub mod json;
pub mod yaml;
pub mod number;
pub mod toon;
pub mod render;

pub use json::{escape_json_string, json_stringify};
pub use markdown::to_markdown_recursive;
pub use node::Node;
pub use object_tree::{to_prompt_tree, PromptValue};
pub use render::{render_json, render_markdown, render_toon, render_xml, render_yaml};
pub use tokens::calculate_tokens;
pub use toon::to_toon_recursive;
pub use xml::{format_content, to_xml_recursive};
pub use yaml::yaml_stringify;
