use kebabize::driver::resolve_mode;
use kebabize::rewrite::update_imports;
use kebabize::driver::runs_imports;
use kebabize::driver::runs_renames;
use kebabize::driver::Mode;
use kebabize::tree::matches_source_file;
use kebabize::tree::plan_renames;
use kebabize::tree::rename_target;
use kebabize::tree::Entry;

fn entry(name: &str, is_dir: bool) -> Entry {
    Entry { name: name.to_string(), is_dir }
}

#[test]
fn test_matches_source_file() {
    assert!(matches_source_file("test.ts"));
    assert!(matches_source_file("test.tsx"));
    assert!(matches_source_file("test.svelte"));
    assert!(!matches_source_file("test.txt"));
    assert!(!matches_source_file("test"));
}

#[test]
fn test_matches_source_file_more() {
    assert!(matches_source_file("a.js"));
    assert!(matches_source_file("a.jsx"));
    assert!(matches_source_file("a.vue"));
    assert!(!matches_source_file(".ts"));
    assert!(!matches_source_file("archive.tar.gz"));
    assert!(matches_source_file("archive.tar.ts"));
}

#[test]
fn test_rename_target() {
    assert_eq!(
        rename_target("MyComponent.svelte", false),
        Some("my-component.svelte".to_string())
    );
    assert_eq!(
        rename_target("ComponentLibrary", true),
        Some("component-library".to_string())
    );
    assert_eq!(rename_target("Makefile", false), Some("makefile".to_string()));
    assert_eq!(rename_target("XMLHTTPRequest.ts", false), Some("xml-http-request.ts".to_string()));
    // a lowercase stem is skipped even when the extension has uppercase
    assert_eq!(rename_target("readme.MD", false), None);
    assert_eq!(rename_target("my-component.svelte", false), None);
    assert_eq!(rename_target("component-library", true), None);
}

#[test]
fn test_plan_renames_order() {
    let entries = vec![
        entry("test", true),
        entry("MyComponent.svelte", false),
        entry("ComponentLibrary", true),
        entry("ButtonComponent.svelte", false),
    ];
    let plan = plan_renames(&entries);
    assert_eq!(
        plan,
        vec![
            (1usize, "my-component.svelte".to_string()),
            (3usize, "button-component.svelte".to_string()),
            (2usize, "component-library".to_string()),
        ]
    );
}

#[test]
fn test_plan_renames_directories_deepest_first() {
    let entries = vec![
        entry("OuterDir", true),
        entry("InnerDir", true),
        entry("DeepFile.ts", false),
    ];
    let plan = plan_renames(&entries);
    assert_eq!(
        plan,
        vec![
            (2usize, "deep-file.ts".to_string()),
            (1usize, "inner-dir".to_string()),
            (0usize, "outer-dir".to_string()),
        ]
    );
}

#[test]
fn test_plan_already_normalized() {
    let entries = vec![
        entry("test", true),
        entry("my-component.svelte", false),
        entry("component-library", true),
    ];
    let plan = plan_renames(&entries);
    assert!(plan.is_empty());
}

#[test]
fn test_imports_then_renames() {
    // in both-mode the imports are rewritten first, so the rewritten
    // specifier agrees with the names the rename plan produces afterwards
    let content = "<script>\n    import ButtonComponent from './ComponentLibrary/ButtonComponent.svelte';\n</script>";
    let (new_content, changes) = update_imports(content);
    assert_eq!(changes, 2);
    assert!(new_content.contains("./component-library/button-component.svelte"));

    let entries = vec![
        entry("MyComponent.svelte", false),
        entry("ComponentLibrary", true),
        entry("ButtonComponent.svelte", false),
    ];
    let plan = plan_renames(&entries);
    assert_eq!(
        plan,
        vec![
            (0usize, "my-component.svelte".to_string()),
            (2usize, "button-component.svelte".to_string()),
            (1usize, "component-library".to_string()),
        ]
    );
    // the rewritten specifier is built from exactly the planned new names
    assert!(new_content.contains(&plan[2].1));
    assert!(new_content.contains(&plan[1].1));
}

#[test]
fn test_resolve_mode() {
    assert_eq!(resolve_mode(false, false), Some(Mode::RenameOnly));
    assert_eq!(resolve_mode(true, false), Some(Mode::ImportsOnly));
    assert_eq!(resolve_mode(false, true), Some(Mode::Both));
    // both exclusive flags together select nothing
    assert_eq!(resolve_mode(true, true), None);
}

#[test]
fn test_mode_passes() {
    assert!(!runs_imports(Mode::RenameOnly));
    assert!(runs_renames(Mode::RenameOnly));
    assert!(runs_imports(Mode::ImportsOnly));
    assert!(!runs_renames(Mode::ImportsOnly));
    assert!(runs_imports(Mode::Both));
    assert!(runs_renames(Mode::Both));
}
