use scaffold::data::DataValue;
use scaffold::directive::{parse_directive, Directive};
use scaffold::error::ScaffoldError;
use scaffold::file_tree::{
    dir_exists, file_content, flatten_file_tree, join_path, unflatten_file_tree, FileTree,
    TreePath,
};
use scaffold::merge::merge_file_trees;
use scaffold::text::{chars_to_string, string_to_chars, Text};

fn t(s: &str) -> Text {
    string_to_chars(s)
}

fn s(v: &Text) -> String {
    chars_to_string(v)
}

fn path(p: &[&str]) -> TreePath {
    p.iter().map(|seg| t(seg)).collect()
}

fn file(content: &str) -> FileTree {
    FileTree::File { content: t(content) }
}

fn dir(entries: Vec<(&str, FileTree)>) -> FileTree {
    FileTree::Directory { entries: entries.into_iter().map(|(n, sub)| (t(n), sub)).collect() }
}

fn flat_strings(tree: &FileTree) -> Vec<(String, Option<String>)> {
    flatten_file_tree(tree)
        .iter()
        .map(|(p, c)| (s(&join_path(p)), c.as_ref().map(|v| s(v))))
        .collect()
}

#[test]
fn flatten_lists_files_and_empty_dirs() {
    let tree = dir(vec![
        ("a", file("x")),
        ("b", dir(vec![])),
        ("c", dir(vec![("d", file("y"))])),
    ]);
    let flat = flat_strings(&tree);
    assert_eq!(
        flat,
        vec![
            ("a".to_string(), Some("x".to_string())),
            ("b".to_string(), None),
            ("c/d".to_string(), Some("y".to_string())),
        ]
    );
}

#[test]
fn unflatten_rebuilds_nested_structure() {
    let entries = vec![
        (path(&["src", "main.rs"]), Some(t("fn main() {}"))),
        (path(&["docs"]), None),
        (path(&["src", "lib.rs"]), Some(t("pub fn lib() {}"))),
    ];
    let tree = unflatten_file_tree(&entries).unwrap();
    let got = file_content(&tree, &path(&["src", "main.rs"])).unwrap();
    assert_eq!(s(&got), "fn main() {}");
    assert!(dir_exists(&tree, &path(&["docs"])));
    assert!(dir_exists(&tree, &path(&["src"])));
}

#[test]
fn unflatten_keeps_later_entry_for_same_path() {
    let entries = vec![
        (path(&["f.txt"]), Some(t("first"))),
        (path(&["f.txt"]), Some(t("second"))),
    ];
    let tree = unflatten_file_tree(&entries).unwrap();
    let got = file_content(&tree, &path(&["f.txt"])).unwrap();
    assert_eq!(s(&got), "second");
}

#[test]
fn unflatten_reports_conflict_for_file_with_children() {
    let entries = vec![
        (path(&["a", "b"]), Some(t("content"))),
        (path(&["a", "b", "c"]), Some(t("deeper"))),
    ];
    let r = unflatten_file_tree(&entries);
    assert!(matches!(r, Err(ScaffoldError::TreeConflict { .. })));

    let reversed = vec![
        (path(&["a", "b", "c"]), Some(t("deeper"))),
        (path(&["a", "b"]), Some(t("content"))),
    ];
    let r2 = unflatten_file_tree(&reversed);
    assert!(matches!(r2, Err(ScaffoldError::TreeConflict { .. })));
}

#[test]
fn lookup_misses_report_path_not_found() {
    let tree = dir(vec![("a", file("x"))]);
    let r = file_content(&tree, &path(&["nope"]));
    assert!(matches!(r, Err(ScaffoldError::PathNotFound { .. })));
    assert!(!dir_exists(&tree, &path(&["nope"])));
}

#[test]
fn merge_prefers_rendered_content_on_shared_paths() {
    let existing = dir(vec![("f.txt", file("old")), ("keep.txt", file("keep"))]);
    let rendered = dir(vec![("f.txt", file("new"))]);
    let merged = merge_file_trees(&existing, &rendered).unwrap();
    assert_eq!(s(&file_content(&merged, &path(&["f.txt"])).unwrap()), "new");
    assert_eq!(s(&file_content(&merged, &path(&["keep.txt"])).unwrap()), "keep");
}

#[test]
fn merge_is_additive_for_new_paths() {
    let existing = dir(vec![("src", dir(vec![("main.rs", file("fn main() {}"))]))]);
    let rendered = dir(vec![("src", dir(vec![("lib.rs", file("pub mod x;"))]))]);
    let merged = merge_file_trees(&existing, &rendered).unwrap();
    assert_eq!(s(&file_content(&merged, &path(&["src", "main.rs"])).unwrap()), "fn main() {}");
    assert_eq!(s(&file_content(&merged, &path(&["src", "lib.rs"])).unwrap()), "pub mod x;");
}

#[test]
fn merge_conflicts_when_rendered_nests_under_existing_file() {
    let existing = dir(vec![("a", file("i am a file"))]);
    let rendered = dir(vec![("a", dir(vec![("b", file("nested"))]))]);
    let r = merge_file_trees(&existing, &rendered);
    assert!(matches!(r, Err(ScaffoldError::TreeConflict { .. })));
}

#[test]
fn json_serializes_scalars_lists_and_objects() {
    let v = DataValue::Object(vec![
        (t("name"), DataValue::Text(t("world"))),
        (t("n"), DataValue::Int(-5)),
        (t("flag"), DataValue::Bool(true)),
        (t("items"), DataValue::List(vec![DataValue::Text(t("a")), DataValue::Null])),
    ]);
    let json = scaffold::data::to_json(&v);
    assert_eq!(s(&json), r#"{"name":"world","n":-5,"flag":true,"items":["a",null]}"#);
}

#[test]
fn json_escapes_string_content() {
    let v = DataValue::Object(vec![(t("s"), DataValue::Text(t("a\"b\\c\nd\te")))]);
    let json = scaffold::data::to_json(&v);
    assert_eq!(s(&json), "{\"s\":\"a\\\"b\\\\c\\nd\\te\"}");
}

#[test]
fn directive_plain_for_ordinary_template_path() {
    let d = parse_directive(&t("web-app/README.md.hbs"));
    assert!(matches!(d, Directive::Plain));
}

#[test]
fn directive_each_captures_prefix_collection_and_suffix() {
    let d = parse_directive(&t("dna/{{#each zomes}}{{name}}.rs{{/each}}.hbs"));
    match d {
        Directive::Each { prefix, coll, suffix } => {
            assert_eq!(s(&prefix), "dna");
            assert_eq!(s(&coll), "zomes");
            assert_eq!(s(&suffix), "{{name}}.rs");
        },
        _ => panic!("expected a collection directive"),
    }
}

#[test]
fn directive_each_if_captures_condition_too() {
    let d = parse_directive(&t("x/{{#each items}}{{#if keep}}{{name}}{{/if}}{{/each}}.hbs"));
    match d {
        Directive::EachIf { prefix, coll, cond, suffix } => {
            assert_eq!(s(&prefix), "x");
            assert_eq!(s(&coll), "items");
            assert_eq!(s(&cond), "keep");
            assert_eq!(s(&suffix), "{{#if keep}}{{name}}{{/if}}");
        },
        _ => panic!("expected a collection directive with condition"),
    }
}

#[test]
fn directive_if_captures_condition_and_suffix() {
    let d = parse_directive(&t("x/{{#if flag}}note.txt{{/if}}.hbs"));
    match d {
        Directive::If { prefix, cond, suffix } => {
            assert_eq!(s(&prefix), "x");
            assert_eq!(s(&cond), "flag");
            assert_eq!(s(&suffix), "note.txt");
        },
        _ => panic!("expected a conditional directive"),
    }
}

#[test]
fn directive_without_template_extension_is_plain() {
    let d = parse_directive(&t("x/{{#if flag}}note.txt{{/if}}"));
    assert!(matches!(d, Directive::Plain));
}

#[test]
fn json_handles_extreme_integers() {
    let v = DataValue::Object(vec![
        (t("lo"), DataValue::Int(i64::MIN)),
        (t("hi"), DataValue::Int(i64::MAX)),
        (t("zero"), DataValue::Int(0)),
    ]);
    let json = scaffold::data::to_json(&v);
    assert_eq!(
        s(&json),
        "{\"lo\":-9223372036854775808,\"hi\":9223372036854775807,\"zero\":0}"
    );
}
