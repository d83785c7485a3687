use forge_tree::classify::classify;
use forge_tree::{ForgeTreeError, ItemType, Parser, StructureItem, TreeParser};

fn chars_of(s: &str) -> Vec<char> {
    s.chars().collect()
}

const EXAMPLE_A: &str = "root/\n├── src/\n│   └── main.txt\n└── README.md\n";

fn names(items: &[StructureItem]) -> Vec<String> {
    items.iter().map(|i| i.name.clone()).collect()
}

#[test]
fn example_a_parses_into_nested_items() {
    let s = Parser::new().parse(EXAMPLE_A).unwrap();
    assert_eq!(s.root, "root");
    assert_eq!(names(&s.items), vec!["src", "README.md"]);
    assert_eq!(s.items[0].item_type, ItemType::Directory);
    assert_eq!(names(&s.items[0].children), vec!["main.txt"]);
    assert_eq!(s.items[0].children[0].item_type, ItemType::File);
    assert!(s.items[0].children[0].children.is_empty());
    assert_eq!(s.items[1].item_type, ItemType::File);
    assert!(s.items[1].children.is_empty());
    assert!(s.variables.is_empty());
    assert_eq!(s.items[0].path, "src");
    assert!(s.items[1].template.is_none() && s.items[1].content.is_none());
}

#[test]
fn empty_text_is_empty_input() {
    assert_eq!(Parser::new().parse("").unwrap_err(), ForgeTreeError::EmptyInput);
}

#[test]
fn blank_only_text_is_empty_input() {
    assert_eq!(TreeParser::new().parse("  \n\t\n\r\n").unwrap_err(), ForgeTreeError::EmptyInput);
}

#[test]
fn extensionless_item_is_guessed_a_directory() {
    // The name holds no `.`, so the kind guess says directory; nothing nests below it.
    let s = Parser::new().parse("root/\n  docs").unwrap();
    assert_eq!(s.root, "root");
    assert_eq!(names(&s.items), vec!["docs"]);
    assert_eq!(s.items[0].item_type, ItemType::Directory);
    assert!(s.items[0].children.is_empty());
}

#[test]
fn root_of_a_bare_slash_is_invalid() {
    assert_eq!(Parser::new().parse("\n  /  \n├── a.txt").unwrap_err(), ForgeTreeError::InvalidRoot);
}

#[test]
fn line_without_name_reports_the_line() {
    let e = Parser::new().parse("root\n├── a.txt\n│   ├── /\n└── b.txt").unwrap_err();
    assert_eq!(e, ForgeTreeError::EmptyName("│   ├── /".to_string()));
}

#[test]
fn root_without_items() {
    let s = Parser::new().parse("\n\nproject/\n\n").unwrap();
    assert_eq!(s.root, "project");
    assert!(s.items.is_empty());
}

#[test]
fn dotted_name_with_children_becomes_directory() {
    let s = Parser::new().parse("root\n├── config.d\n│   └── a.conf\n└── b.txt").unwrap();
    assert_eq!(s.items[0].name, "config.d");
    assert_eq!(s.items[0].item_type, ItemType::Directory);
    assert_eq!(names(&s.items[0].children), vec!["a.conf"]);
}

#[test]
fn trailing_slash_marks_a_directory() {
    let s = Parser::new().parse("root\n└── v1.0/").unwrap();
    assert_eq!(s.items[0].name, "v1.0");
    assert_eq!(s.items[0].item_type, ItemType::Directory);
}

#[test]
fn deep_nesting_and_document_order() {
    let text = "p\n├── a\n│   ├── b\n│   │   └── c.txt\n│   └── d.txt\n├── e.txt\n└── f\n";
    let s = Parser::new().parse(text).unwrap();
    assert_eq!(names(&s.items), vec!["a", "e.txt", "f"]);
    assert_eq!(names(&s.items[0].children), vec!["b", "d.txt"]);
    assert_eq!(names(&s.items[0].children[0].children), vec!["c.txt"]);
    assert!(s.items[2].children.is_empty());
}

#[test]
fn whitespace_adds_no_depth() {
    // Only connector glyphs count: the line under the last branch has as many as the branch.
    let s = Parser::new().parse("p\n└── f\n    └── g.txt\n").unwrap();
    assert_eq!(names(&s.items), vec!["f", "g.txt"]);
    assert!(s.items[0].children.is_empty());
}

#[test]
fn blank_lines_and_crlf_are_ignored() {
    let s = Parser::new().parse("root/\r\n\r\n├── a.txt\r\n\r\n└── b.txt\r\n").unwrap();
    assert_eq!(s.root, "root");
    assert_eq!(names(&s.items), vec!["a.txt", "b.txt"]);
}

#[test]
fn shallower_line_starts_a_sibling() {
    let s = Parser::new().parse("r\n│   └── deep.txt\n├── top.txt").unwrap();
    assert_eq!(names(&s.items), vec!["deep.txt", "top.txt"]);
    assert!(s.items[0].children.is_empty());
}

#[test]
fn depth_skips_are_accepted() {
    let s = Parser::new().parse("r\n├── a\n│   │   │   └── x.txt\n└── b.txt").unwrap();
    assert_eq!(names(&s.items), vec!["a", "b.txt"]);
    assert_eq!(names(&s.items[0].children), vec!["x.txt"]);
}

#[test]
fn classify_counts_connectors_only() {
    let l = classify(&chars_of("│   │   └── name.rs  "));
    assert_eq!(l.depth, 3);
    assert_eq!(l.name, "name.rs");
    assert!(!l.is_directory);
    let d = classify(&chars_of("──  plain/"));
    assert_eq!(d.depth, 0);
    assert_eq!(d.name, "plain");
    assert!(d.is_directory);
}
