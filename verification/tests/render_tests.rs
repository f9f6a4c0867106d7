use scaffold::cli::HcScaffoldTemplate;
use scaffold::data::DataValue;
use scaffold::engine::RenderEngine;
use scaffold::error::ScaffoldError;
use scaffold::file_tree::{
    file_content, flatten_file_tree, join_path, FileTree, TreePath,
};
use scaffold::templates::{
    build_handlebars, existing_templates_names, register_all_partials_in_dir,
    render_template_file, render_template_file_tree,
    render_template_file_tree_and_merge_with_existing, resolve_template, template_file_tree,
    template_names, templates_path, trim_text,
};
use scaffold::text::{chars_to_string, string_to_chars, Text};

fn t(s: &str) -> Text {
    string_to_chars(s)
}

fn s(v: &Text) -> String {
    chars_to_string(v)
}

fn path(p: &[&str]) -> TreePath {
    p.iter().map(|seg| t(seg)).collect()
}

fn file(content: &str) -> FileTree {
    FileTree::File { content: t(content) }
}

fn dir(entries: Vec<(&str, FileTree)>) -> FileTree {
    FileTree::Directory { entries: entries.into_iter().map(|(n, sub)| (t(n), sub)).collect() }
}

fn obj(fields: Vec<(&str, DataValue)>) -> DataValue {
    DataValue::Object(fields.into_iter().map(|(k, v)| (t(k), v)).collect())
}

fn list_of_texts(items: &[&str]) -> DataValue {
    DataValue::List(items.iter().map(|i| DataValue::Text(t(i))).collect())
}

fn flat_strings(tree: &FileTree) -> Vec<(String, Option<String>)> {
    flatten_file_tree(tree)
        .iter()
        .map(|(p, c)| (s(&join_path(p)), c.as_ref().map(|v| s(v))))
        .collect()
}

fn render(existing: &FileTree, templates: &FileTree, data: &DataValue) -> FileTree {
    let h = build_handlebars(templates).unwrap();
    render_template_file_tree(existing, &h, templates, data).unwrap()
}

#[test]
fn plain_template_renders_path_and_content() {
    let templates = dir(vec![("{{name}}.txt.hbs", file("hi {{name}}"))]);
    let data = obj(vec![("name", DataValue::Text(t("bob")))]);
    let out = render(&dir(vec![]), &templates, &data);
    assert_eq!(s(&file_content(&out, &path(&["bob.txt"])).unwrap()), "hi bob");
}

#[test]
fn file_without_template_extension_passes_through() {
    let templates = dir(vec![("{{name}}.png", file("rawdata"))]);
    let data = obj(vec![("name", DataValue::Text(t("logo")))]);
    let out = render(&dir(vec![]), &templates, &data);
    assert_eq!(s(&file_content(&out, &path(&["logo.png"])).unwrap()), "rawdata");
}

#[test]
fn directory_names_are_substituted() {
    let templates = dir(vec![("{{name}}-dir", dir(vec![]))]);
    let data = obj(vec![("name", DataValue::Text(t("bob")))]);
    let out = render(&dir(vec![]), &templates, &data);
    assert_eq!(flat_strings(&out), vec![("bob-dir".to_string(), None)]);
}

#[test]
fn encoded_slash_in_template_name_becomes_separator() {
    let templates = dir(vec![("src\u{a1}lib.rs.hbs", file("pub mod {{name}};"))]);
    let data = obj(vec![("name", DataValue::Text(t("zome")))]);
    let out = render(&dir(vec![]), &templates, &data);
    assert_eq!(s(&file_content(&out, &path(&["src", "lib.rs"])).unwrap()), "pub mod zome;");
}

#[test]
fn rendering_twice_gives_identical_trees() {
    let templates = dir(vec![
        ("tpl", dir(vec![("{{#each items}}file-{{this}}{{/each}}.hbs", file("hello {{this}}"))])),
        ("{{name}}.txt.hbs", file("hi {{name}}")),
    ]);
    let data = obj(vec![
        ("name", DataValue::Text(t("bob"))),
        ("items", list_of_texts(&["a", "b"])),
    ]);
    let empty = dir(vec![]);
    let first = render(&empty, &templates, &data);
    let second = render(&empty, &templates, &data);
    assert_eq!(flat_strings(&first), flat_strings(&second));
}

#[test]
fn each_expands_one_file_per_element_in_order() {
    let templates = dir(vec![
        ("tpl", dir(vec![("{{#each items}}file-{{this}}{{/each}}.hbs", file("hello {{this}}"))])),
    ]);
    let data = obj(vec![("items", list_of_texts(&["a", "b", "c"]))]);
    let out = render(&dir(vec![]), &templates, &data);
    let flat = flat_strings(&out);
    assert_eq!(flat.len(), 3);
    assert_eq!(flat[0].0, "tpl/file-a");
    assert_eq!(flat[1].0, "tpl/file-b");
    assert_eq!(flat[2].0, "tpl/file-c");
    assert_eq!(flat[0].1.as_deref(), Some("hello a"));
    assert_eq!(flat[1].1.as_deref(), Some("hello b"));
    assert_eq!(flat[2].1.as_deref(), Some("hello c"));
}

#[test]
fn each_with_empty_collection_yields_nothing() {
    let templates = dir(vec![
        ("tpl", dir(vec![("{{#each items}}file-{{this}}{{/each}}.hbs", file("hello {{this}}"))])),
    ]);
    let data = obj(vec![("items", DataValue::List(vec![]))]);
    let out = render(&dir(vec![]), &templates, &data);
    assert_eq!(flat_strings(&out), vec![]);
}

#[test]
fn if_true_yields_exactly_one_file() {
    let templates = dir(vec![("x", dir(vec![("{{#if flag}}note.txt{{/if}}.hbs", file("yes"))]))]);
    let data = obj(vec![("flag", DataValue::Bool(true))]);
    let out = render(&dir(vec![]), &templates, &data);
    let flat = flat_strings(&out);
    assert_eq!(flat.len(), 1);
    assert_eq!(flat[0].0, "x/note.txt");
    assert_eq!(flat[0].1.as_deref(), Some("yes"));
}

#[test]
fn if_false_yields_no_file() {
    let templates = dir(vec![("x", dir(vec![("{{#if flag}}note.txt{{/if}}.hbs", file("yes"))]))]);
    let data = obj(vec![("flag", DataValue::Bool(false))]);
    let out = render(&dir(vec![]), &templates, &data);
    assert_eq!(flat_strings(&out), vec![]);
}

#[test]
fn each_if_keeps_only_elements_passing_the_condition() {
    let templates = dir(vec![(
        "p",
        dir(vec![(
            "{{#each items}}{{#if keep}}{{name}}.txt{{/if}}{{/each}}.hbs",
            file("{{name}}-body"),
        )]),
    )]);
    let data = obj(vec![(
        "items",
        DataValue::List(vec![
            obj(vec![("name", DataValue::Text(t("a"))), ("keep", DataValue::Bool(true))]),
            obj(vec![("name", DataValue::Text(t("b"))), ("keep", DataValue::Bool(false))]),
        ]),
    )]);
    let out = render(&dir(vec![]), &templates, &data);
    let flat = flat_strings(&out);
    assert_eq!(flat.len(), 1);
    assert_eq!(flat[0].0, "p/a.txt");
    assert_eq!(flat[0].1.as_deref(), Some("\na-body"));
}

#[test]
fn previous_content_is_exposed_for_existing_target() {
    let existing = dir(vec![("notes.txt", file("OLD"))]);
    let templates = dir(vec![("notes.txt.hbs", file("{{previous_file_content}}+new"))]);
    let data = obj(vec![]);
    let out = render(&existing, &templates, &data);
    assert_eq!(s(&file_content(&out, &path(&["notes.txt"])).unwrap()), "OLD+new");
}

#[test]
fn previous_content_key_is_absent_for_fresh_target() {
    let templates = dir(vec![(
        "fresh.txt.hbs",
        file("{{#if previous_file_content}}has{{/if}}none"),
    )]);
    let data = obj(vec![]);
    let out = render(&dir(vec![]), &templates, &data);
    assert_eq!(s(&file_content(&out, &path(&["fresh.txt"])).unwrap()), "none");
}

#[test]
fn render_template_file_injects_previous_content() {
    let existing = dir(vec![("a.txt", file("OLD"))]);
    let h = RenderEngine::new();
    let data = obj(vec![]);
    let r = render_template_file(&h, &existing, &path(&["a.txt"]), &t("<{{previous_file_content}}>"), &data)
        .unwrap();
    assert_eq!(s(&r), "<OLD>");
}

#[test]
fn field_types_fragments_are_registered_as_partials() {
    let templates = dir(vec![
        ("field-types", dir(vec![("greeting.hbs", file("  hello {{name}}  "))])),
        ("{{name}}.txt.hbs", file("[{{> greeting}}]")),
    ]);
    let data = obj(vec![("name", DataValue::Text(t("bob")))]);
    let out = render(&dir(vec![]), &templates, &data);
    assert_eq!(s(&file_content(&out, &path(&["bob.txt"])).unwrap()), "[hello bob]");
}

#[test]
fn later_partial_with_same_key_wins() {
    let mut h = RenderEngine::new();
    let first = dir(vec![("p.hbs", file("one"))]);
    let second = dir(vec![("p.hbs", file("two"))]);
    register_all_partials_in_dir(&mut h, &first).unwrap();
    register_all_partials_in_dir(&mut h, &second).unwrap();
    let data = obj(vec![]);
    let r = h.render_template(&t("{{> p}}"), &data).unwrap();
    assert_eq!(s(&r), "two");
}

#[test]
fn render_and_merge_keeps_untouched_files() {
    let existing = dir(vec![("keep.md", file("keep me")), ("out.txt", file("old"))]);
    let templates = dir(vec![("out.txt.hbs", file("new"))]);
    let data = obj(vec![]);
    let h = build_handlebars(&templates).unwrap();
    let merged =
        render_template_file_tree_and_merge_with_existing(existing, &h, &templates, &data).unwrap();
    assert_eq!(s(&file_content(&merged, &path(&["keep.md"])).unwrap()), "keep me");
    assert_eq!(s(&file_content(&merged, &path(&["out.txt"])).unwrap()), "new");
}

#[test]
fn unresolved_expression_is_a_render_error() {
    let templates = dir(vec![("x.txt.hbs", file("{{> missing_partial}}"))]);
    let data = obj(vec![]);
    let h = build_handlebars(&templates).unwrap();
    let r = render_template_file_tree(&dir(vec![]), &h, &templates, &data);
    assert!(matches!(r, Err(ScaffoldError::RenderError { .. })));
}

#[test]
fn trim_strips_surrounding_whitespace_only() {
    assert_eq!(s(&trim_text(&t("  a b \n"))), "a b");
    assert_eq!(s(&trim_text(&t("ab"))), "ab");
    assert_eq!(s(&trim_text(&t("  \n "))), "");
}

#[test]
fn templates_path_is_the_reserved_directory() {
    assert_eq!(s(&join_path(&templates_path())), ".templates");
}

#[test]
fn template_names_lists_directories_only() {
    let tree = dir(vec![(
        ".templates",
        dir(vec![("notes.txt", file("x")), ("vanilla", dir(vec![])), ("vue", dir(vec![]))]),
    )]);
    let names = template_names(&tree).unwrap();
    let names: Vec<String> = names.iter().map(|n| s(n)).collect();
    assert_eq!(names, vec!["vanilla".to_string(), "vue".to_string()]);

    let listed = existing_templates_names(&tree);
    let listed: Vec<String> = listed.iter().map(|n| s(n)).collect();
    assert_eq!(listed, vec!["notes.txt".to_string(), "vanilla".to_string(), "vue".to_string()]);
}

#[test]
fn resolve_template_settles_each_case() {
    let names = vec![t("vanilla"), t("vue")];
    let one = vec![t("vanilla")];
    let none: Vec<Text> = vec![];

    let r = resolve_template(&none, &None);
    assert!(matches!(r, Err(ScaffoldError::NoTemplatesFound)));

    let r = resolve_template(&one, &None).unwrap();
    assert_eq!(s(&r.unwrap()), "vanilla");

    let r = resolve_template(&names, &None).unwrap();
    assert!(r.is_none());

    let r = resolve_template(&names, &Some(t("vue"))).unwrap();
    assert_eq!(s(&r.unwrap()), "vue");

    let r = resolve_template(&names, &Some(t("lit")));
    assert!(matches!(r, Err(ScaffoldError::TemplateNotFound { .. })));
}

#[test]
fn template_file_tree_returns_the_named_subtree() {
    let tree = dir(vec![(
        ".templates",
        dir(vec![("vanilla", dir(vec![("web-app", dir(vec![("a.hbs", file("x"))]))]))]),
    )]);
    let sub = template_file_tree(&tree, &t("vanilla")).unwrap();
    assert_eq!(
        s(&file_content(&sub, &path(&["web-app", "a.hbs"])).unwrap()),
        "x"
    );
    let missing = template_file_tree(&tree, &t("svelte"));
    assert!(matches!(missing, Err(ScaffoldError::PathNotFound { .. })));
}

#[test]
fn target_template_returns_the_requested_folder() {
    let g = HcScaffoldTemplate::Get {
        template_url: "https://example.test/repo".to_string(),
        from_template: None,
        to_template: Some("custom".to_string()),
    };
    assert_eq!(g.target_template().as_deref(), Some("custom"));
    let i = HcScaffoldTemplate::Init { template: Some("vue".to_string()), to_template: None };
    assert!(i.target_template().is_none());
}

#[test]
fn malformed_fragment_is_reported() {
    let mut h = RenderEngine::new();
    let bad = dir(vec![("broken.hbs", file("{{#if x}"))]);
    let r = register_all_partials_in_dir(&mut h, &bad);
    assert!(matches!(r, Err(ScaffoldError::MalformedTemplate { .. })));
}

#[test]
fn rendered_expressions_are_not_escaped() {
    let templates = dir(vec![("out.txt.hbs", file("{{x}}"))]);
    let data = obj(vec![("x", DataValue::Text(t("<a href=\"q\">&</a>")))]);
    let out = render(&dir(vec![]), &templates, &data);
    assert_eq!(
        s(&file_content(&out, &path(&["out.txt"])).unwrap()),
        "<a href=\"q\">&</a>"
    );
}

#[test]
fn encoded_quote_in_template_name_reaches_the_expression() {
    let templates = dir(vec![(
        "x",
        dir(vec![("{{#if (eq name 'bob')}}hit.txt{{/if}}.hbs", file("for {{name}}"))]),
    )]);
    let data = obj(vec![("name", DataValue::Text(t("bob")))]);
    let out = render(&dir(vec![]), &templates, &data);
    let flat = flat_strings(&out);
    assert_eq!(flat.len(), 1);
    assert_eq!(flat[0].0, "x/hit.txt");
    assert_eq!(flat[0].1.as_deref(), Some("for bob"));

    let other = obj(vec![("name", DataValue::Text(t("eve")))]);
    let out2 = render(&dir(vec![]), &templates, &other);
    assert_eq!(flat_strings(&out2), vec![]);
}

#[test]
fn fragment_referencing_another_partial_is_refused() {
    let mut h = RenderEngine::new();
    let fragments = dir(vec![("a.hbs", file("{{> b}}"))]);
    let r = register_all_partials_in_dir(&mut h, &fragments);
    assert!(matches!(r, Err(ScaffoldError::MalformedTemplate { .. })));
}

#[test]
fn template_defining_an_inline_partial_is_refused() {
    let templates = dir(vec![(
        "x.txt.hbs",
        file("{{#*inline \"p\"}}hi{{/inline}}{{> p}}"),
    )]);
    let data = obj(vec![]);
    let h = build_handlebars(&templates).unwrap();
    let r = render_template_file_tree(&dir(vec![]), &h, &templates, &data);
    assert!(matches!(r, Err(ScaffoldError::RenderError { .. })));
}

#[test]
fn merging_an_empty_render_leaves_the_tree_unchanged() {
    let existing = dir(vec![
        ("docs", dir(vec![])),
        ("src", dir(vec![("main.rs", file("fn main() {}"))])),
    ]);
    let before = flat_strings(&existing);
    let templates = dir(vec![]);
    let data = obj(vec![]);
    let h = build_handlebars(&templates).unwrap();
    let merged =
        render_template_file_tree_and_merge_with_existing(existing, &h, &templates, &data).unwrap();
    assert_eq!(flat_strings(&merged), before);
}

#[test]
fn rerunning_a_scaffold_over_its_own_output_changes_nothing() {
    let existing = dir(vec![("keep.md", file("keep me"))]);
    let templates = dir(vec![("out.txt.hbs", file("fresh {{name}}"))]);
    let data = obj(vec![("name", DataValue::Text(t("bob")))]);
    let h = build_handlebars(&templates).unwrap();
    let once =
        render_template_file_tree_and_merge_with_existing(existing, &h, &templates, &data).unwrap();
    let after_once = flat_strings(&once);
    let twice =
        render_template_file_tree_and_merge_with_existing(once, &h, &templates, &data).unwrap();
    assert_eq!(flat_strings(&twice), after_once);
}
