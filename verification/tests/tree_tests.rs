use dirtree::greet::hello_world;
use dirtree::render::render_directory_tree;
use dirtree::render::render_tree;
use dirtree::tree::DirectoryEntry;
use dirtree::tree::TreeError;
use dirtree::validate::classify_path;
use dirtree::validate::trim_quote_chars;

fn dir(name: &str, children: Vec<DirectoryEntry>) -> DirectoryEntry {
    DirectoryEntry { name: name.to_string(), is_directory: true, children }
}

fn file(name: &str) -> DirectoryEntry {
    DirectoryEntry { name: name.to_string(), is_directory: false, children: Vec::new() }
}

fn render(root: &str, entries: Vec<DirectoryEntry>, include_files: bool) -> String {
    render_tree(&Some(root.to_string()), &entries, include_files)
}

#[test]
fn scenario_project_with_files() {
    let entries = vec![dir("src", vec![]), dir("docs", vec![]), file("README.md")];
    let out = render("project", entries, true);
    assert_eq!(out, "project\n├── docs\n├── src\n└── README.md\n");
}

#[test]
fn scenario_project_without_files() {
    let entries = vec![dir("src", vec![]), dir("docs", vec![]), file("README.md")];
    let out = render("project", entries, false);
    assert_eq!(out, "project\n├── docs\n└── src\n");
}

#[test]
fn scenario_nested_file() {
    let entries = vec![dir("b", vec![file("c.txt")])];
    let out = render("a", entries, true);
    assert_eq!(out, "a\n└── b\n    └── c.txt\n");
}

#[test]
fn scenario_path_not_found() {
    let path = "/nonexistent".to_string();
    let r = render_directory_tree(&path, false, false, &None, &Vec::new(), true);
    assert_eq!(r, Err("Percorso non esistente: /nonexistent".to_string()));
}

#[test]
fn scenario_not_a_directory() {
    let path = "/tmp/file.txt".to_string();
    let r = render_directory_tree(&path, true, false, &None, &Vec::new(), true);
    assert_eq!(r, Err("Il percorso non è una directory: /tmp/file.txt".to_string()));
}

#[test]
fn empty_directory_renders_only_root_line() {
    let out = render("empty", Vec::new(), true);
    assert_eq!(out, "empty\n");
    let out = render("empty", Vec::new(), false);
    assert_eq!(out, "empty\n");
}

#[test]
fn no_root_name_omits_first_line() {
    let entries = vec![dir("home", vec![])];
    let out = render_tree(&None, &entries, true);
    assert_eq!(out, "└── home\n");
}

#[test]
fn rendering_twice_is_byte_identical() {
    let make = || vec![dir("b", vec![file("z.txt"), dir("c", vec![])]), file("a.txt")];
    let first = render("root", make(), true);
    let second = render("root", make(), true);
    assert_eq!(first, second);
}

#[test]
fn directories_come_before_files_each_sorted() {
    let entries = vec![
        file("zeta"),
        dir("omega", vec![]),
        file("alpha"),
        dir("beta", vec![]),
    ];
    let out = render("r", entries, true);
    assert_eq!(out, "r\n├── beta\n├── omega\n├── alpha\n└── zeta\n");
}

#[test]
fn names_sort_in_codepoint_order() {
    let entries = vec![file("b"), file("A"), file("a"), file("B")];
    let out = render("r", entries, true);
    assert_eq!(out, "r\n├── A\n├── B\n├── a\n└── b\n");
}

#[test]
fn files_are_excluded_at_every_depth() {
    let entries = vec![
        dir("top", vec![file("inner.txt"), dir("deep", vec![file("deepest.txt")])]),
        file("outer.txt"),
    ];
    let out = render("r", entries, false);
    assert_eq!(out, "r\n└── top\n    └── deep\n");
}

#[test]
fn continuation_prefix_under_non_last_directory() {
    let entries = vec![dir("first", vec![file("x")]), dir("second", vec![file("y")])];
    let out = render("r", entries, true);
    assert_eq!(
        out,
        "r\n├── first\n│   └── x\n└── second\n    └── y\n"
    );
}

#[test]
fn deeply_nested_prefixes_accumulate() {
    let entries = vec![dir("a", vec![dir("b", vec![file("c")]), file("d")])];
    let out = render("r", entries, true);
    assert_eq!(
        out,
        "r\n└── a\n    ├── b\n    │   └── c\n    └── d\n"
    );
}

#[test]
fn directory_precedes_file_of_same_name() {
    let entries = vec![file("x"), dir("x", vec![file("inner")])];
    let out = render("r", entries, true);
    assert_eq!(out, "r\n├── x\n│   └── inner\n└── x\n");
}

#[test]
fn accented_names_sort_after_ascii() {
    let entries = vec![file("à"), file("z")];
    let out = render("r", entries, true);
    assert_eq!(out, "r\n├── z\n└── à\n");
}

#[test]
fn only_files_with_files_excluded_yields_root_line() {
    let entries = vec![file("a"), file("b")];
    let out = render("r", entries, false);
    assert_eq!(out, "r\n");
}

#[test]
fn trim_strips_surrounding_quotes() {
    assert_eq!(trim_quote_chars("\"/tmp/data\""), "/tmp/data");
    assert_eq!(trim_quote_chars("\"\"quoted\"\""), "quoted");
    assert_eq!(trim_quote_chars("plain"), "plain");
    assert_eq!(trim_quote_chars("\"left"), "left");
    assert_eq!(trim_quote_chars("right\""), "right");
    assert_eq!(trim_quote_chars(""), "");
    assert_eq!(trim_quote_chars("\"\"\""), "");
    assert_eq!(trim_quote_chars("a\"b"), "a\"b");
}

#[test]
fn classify_accepts_existing_directory() {
    let path = "/srv".to_string();
    assert!(matches!(classify_path(&path, true, true), Ok(())));
}

#[test]
fn classify_rejects_missing_path() {
    let path = "/gone".to_string();
    match classify_path(&path, false, false) {
        Err(TreeError::PathNotFound { path: p }) => assert_eq!(p, "/gone"),
        _ => panic!("expected PathNotFound"),
    }
}

#[test]
fn classify_rejects_non_directory() {
    let path = "/etc/hosts".to_string();
    match classify_path(&path, true, false) {
        Err(TreeError::NotADirectory { path: p }) => assert_eq!(p, "/etc/hosts"),
        _ => panic!("expected NotADirectory"),
    }
}

#[test]
fn read_failure_message_carries_detail() {
    let e = TreeError::DirectoryReadFailure { detail: "permission denied".to_string() };
    assert_eq!(
        e.message(),
        "Errore nella lettura della directory: permission denied"
    );
}

#[test]
fn successful_request_returns_rendered_tree() {
    let path = "/data/project".to_string();
    let entries = vec![dir("docs", vec![]), file("README.md")];
    let r = render_directory_tree(
        &path,
        true,
        true,
        &Some("project".to_string()),
        &entries,
        true,
    );
    assert_eq!(r, Ok("project\n├── docs\n└── README.md\n".to_string()));
}

#[test]
fn greeting_uses_given_name() {
    assert_eq!(hello_world(Some("Anna".to_string())), "Ciao, Anna! 👋 (da Rust)");
}

#[test]
fn greeting_defaults_to_stranger() {
    assert_eq!(hello_world(None), "Ciao, straniero! 👋 (da Rust)");
}
