use forge_tree::generator::{Action, ContentSource, PathState, PlannedEntry};
use forge_tree::{FileGenerator, ForgeTreeError, Generator, ItemType, Parser};
use std::collections::HashMap;

const EXAMPLE_A: &str = "root/\n├── src/\n│   └── main.txt\n└── README.md\n";

// A filesystem in memory: path to `None` for a directory or `Some(content)` for a file.
type Fs = HashMap<String, Option<String>>;

fn state(fs: &Fs, p: &str) -> PathState {
    match fs.get(p) {
        None => PathState::Missing,
        Some(None) => PathState::Directory,
        Some(Some(_)) => PathState::File,
    }
}

fn content(e: &PlannedEntry) -> String {
    match &e.source {
        ContentSource::Empty => String::new(),
        ContentSource::Literal(s) => s.clone(),
        ContentSource::Template(t) => format!("rendered:{}", t),
    }
}

fn lay_out(plan: &[PlannedEntry], fs: &mut Fs, force: bool) -> Result<(), ForgeTreeError> {
    let fg = FileGenerator::new().with_force_overwrite(force);
    for e in plan {
        match fg.decide(e.kind, &e.path, state(fs, &e.path))? {
            Action::CreateDirectory | Action::KeepDirectory => {
                fs.insert(e.path.clone(), None);
            }
            Action::WriteFile => {
                fs.insert(e.path.clone(), Some(content(e)));
            }
        }
    }
    Ok(())
}

fn paths(plan: &[PlannedEntry]) -> Vec<String> {
    plan.iter().map(|e| e.path.clone()).collect()
}

#[test]
fn plan_of_example_a_is_depth_first() {
    let s = Parser::new().parse(EXAMPLE_A).unwrap();
    let plan = Generator::new().plan(&s);
    assert_eq!(paths(&plan), vec!["root", "root/src", "root/src/main.txt", "root/README.md"]);
    let kinds: Vec<ItemType> = plan.iter().map(|e| e.kind).collect();
    assert_eq!(kinds, vec![ItemType::Directory, ItemType::Directory, ItemType::File, ItemType::File]);
}

#[test]
fn items_with_children_are_planned_as_directories() {
    let s = Parser::new().parse("r\n├── lib.v2\n│   └── x.txt").unwrap();
    let plan = Generator::new().plan(&s);
    assert_eq!(paths(&plan), vec!["r", "r/lib.v2", "r/lib.v2/x.txt"]);
    assert_eq!(plan[1].kind, ItemType::Directory);
}

#[test]
fn literal_content_wins_over_template() {
    let mut s = Parser::new().parse("r\n├── a.txt\n├── b.txt\n└── c.txt").unwrap();
    s.items[0].content = Some("lit".to_string());
    s.items[0].template = Some("tpl".to_string());
    s.items[1].template = Some("{{name}}".to_string());
    let plan = Generator::new().plan(&s);
    assert!(matches!(&plan[1].source, ContentSource::Literal(c) if c == "lit"));
    assert!(matches!(&plan[2].source, ContentSource::Template(t) if t == "{{name}}"));
    assert!(matches!(&plan[3].source, ContentSource::Empty));
}

#[test]
fn decide_directory_cases() {
    let fg = FileGenerator::new();
    let p = "out/dir".to_string();
    assert_eq!(fg.decide(ItemType::Directory, &p, PathState::Missing), Ok(Action::CreateDirectory));
    assert_eq!(fg.decide(ItemType::Directory, &p, PathState::Directory), Ok(Action::KeepDirectory));
    assert_eq!(
        fg.decide(ItemType::Directory, &p, PathState::File),
        Err(ForgeTreeError::PathTypeConflict("out/dir".to_string()))
    );
}

#[test]
fn decide_file_cases() {
    let p = "out/f.txt".to_string();
    let keep = FileGenerator::new();
    let force = FileGenerator::new().with_force_overwrite(true);
    assert!(!keep.force_overwrite());
    assert!(force.force_overwrite());
    assert_eq!(keep.decide(ItemType::File, &p, PathState::Missing), Ok(Action::WriteFile));
    assert_eq!(keep.decide(ItemType::File, &p, PathState::File), Err(ForgeTreeError::FileExists(p.clone())));
    assert_eq!(keep.decide(ItemType::File, &p, PathState::Directory), Err(ForgeTreeError::FileExists(p.clone())));
    assert_eq!(force.decide(ItemType::File, &p, PathState::File), Ok(Action::WriteFile));
    assert_eq!(
        force.decide(ItemType::File, &p, PathState::Directory),
        Err(ForgeTreeError::PathTypeConflict(p.clone()))
    );
}

#[test]
fn generator_settings() {
    let g = Generator::new();
    assert!(!g.verbose());
    assert!(!g.file_generator().force_overwrite());
    let g = g.with_verbose(true).with_force_override(true);
    assert!(g.verbose());
    assert!(g.file_generator().force_overwrite());
}

#[test]
fn fresh_layout_has_one_entry_per_item() {
    let s = Parser::new().parse(EXAMPLE_A).unwrap();
    let plan = Generator::new().plan(&s);
    let mut fs = Fs::new();
    lay_out(&plan, &mut fs, false).unwrap();
    assert_eq!(fs.len(), 4);
    assert_eq!(fs.get("root/src"), Some(&None));
    assert_eq!(fs.get("root/README.md"), Some(&Some(String::new())));
}

#[test]
fn forced_second_layout_changes_nothing() {
    let mut s = Parser::new().parse(EXAMPLE_A).unwrap();
    s.items[1].content = Some("hello".to_string());
    let plan = Generator::new().plan(&s);
    let mut once = Fs::new();
    once.insert("other".to_string(), Some("x".to_string()));
    lay_out(&plan, &mut once, true).unwrap();
    let mut twice = once.clone();
    lay_out(&plan, &mut twice, true).unwrap();
    assert_eq!(once, twice);
}

#[test]
fn existing_readme_stops_layout_after_earlier_entries() {
    let s = Parser::new().parse(EXAMPLE_A).unwrap();
    let plan = Generator::new().plan(&s);
    let mut fs = Fs::new();
    fs.insert("root".to_string(), None);
    fs.insert("root/README.md".to_string(), Some("old".to_string()));
    let e = lay_out(&plan, &mut fs, false).unwrap_err();
    assert_eq!(e, ForgeTreeError::FileExists("root/README.md".to_string()));
    assert_eq!(fs.get("root/src/main.txt"), Some(&Some(String::new())));
    assert_eq!(fs.get("root/README.md"), Some(&Some("old".to_string())));
}

#[test]
fn existing_file_leaves_later_siblings_untouched() {
    let s = Parser::new().parse("r\n├── a.txt\n├── b.txt\n└── c.txt").unwrap();
    let plan = Generator::new().plan(&s);
    let mut fs = Fs::new();
    fs.insert("r/a.txt".to_string(), Some("keep".to_string()));
    let e = lay_out(&plan, &mut fs, false).unwrap_err();
    assert_eq!(e, ForgeTreeError::FileExists("r/a.txt".to_string()));
    assert!(fs.get("r/b.txt").is_none());
    assert!(fs.get("r/c.txt").is_none());
    assert_eq!(fs.get("r/a.txt"), Some(&Some("keep".to_string())));
}
