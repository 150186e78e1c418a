use kebabize::rewrite::update_imports;

#[test]
fn test_update_imports() {
    let content = r#"
            import MyComponent from './MyComponent.svelte';
            import { Something } from '../ComponentLibrary/ButtonComponent';
            const util = require('./UtilityFunctions');
            import { useGetCurrentPlan } from './useGetCurrentPlan.svelte';
            import { useMediaRecorder } from './useMediaRecorder.svelte';
            import type { Delimiter } from "components/Messages/StyledText.svelte";
            import type { MessageHandler } from "./useMessageHandler.svelte";
        "#;

    let (new_content, changes) = update_imports(content);

    println!("New content:\n{}", new_content);

    assert_eq!(changes, 9);
    assert!(new_content.contains("./my-component.svelte"));
    assert!(new_content.contains("component-library/button-component"));
    assert!(new_content.contains("./utility-functions"));
    assert!(new_content.contains("./use-get-current-plan.svelte"));
    assert!(new_content.contains("./use-media-recorder.svelte"));
    assert!(new_content.contains("components/messages/styled-text.svelte"));
    assert!(new_content.contains("./use-message-handler.svelte"));
}

#[test]
fn test_update_imports_idempotent() {
    let content = r#"
            import MyComponent from './MyComponent.svelte';
            import { Something } from '../ComponentLibrary/ButtonComponent';
            const util = require('./UtilityFunctions');
        "#;
    let (once, changes) = update_imports(content);
    assert!(changes > 0);
    let (twice, changes_again) = update_imports(&once);
    assert_eq!(changes_again, 0);
    assert_eq!(twice, once);
}

#[test]
fn test_update_imports_no_change() {
    let content = r#"
            import my from './my-component.svelte';
            const util = require('./utility-functions');
            plain text without imports
        "#;
    let (out, changes) = update_imports(content);
    assert_eq!(changes, 0);
    assert_eq!(out, content);
}

#[test]
fn test_update_imports_quote_styles() {
    let (out, changes) = update_imports("import X from \"./FooBar\";");
    assert_eq!(changes, 1);
    assert_eq!(out, "import X from \"./foo-bar\";");

    let (out2, changes2) = update_imports("const m = require('./FooBar');");
    assert_eq!(changes2, 1);
    assert_eq!(out2, "const m = require('./foo-bar');");

    let (out3, changes3) = update_imports("import type { T } from './TypeFile';");
    assert_eq!(changes3, 1);
    assert_eq!(out3, "import type { T } from './type-file';");
}

#[test]
fn test_update_imports_dot_segments_kept() {
    let (out, changes) = update_imports("import x from './../FooBar';");
    assert_eq!(changes, 1);
    assert_eq!(out, "import x from './../foo-bar';");
}

#[test]
fn test_update_imports_extension_kept_verbatim() {
    let (out, changes) = update_imports("import icon from './Icon.SVG';");
    assert_eq!(changes, 1);
    assert_eq!(out, "import icon from './icon.SVG';");
}

#[test]
fn test_update_imports_acronym_specifier() {
    let (out, changes) = update_imports("import { api } from './APIEndpoint';");
    assert_eq!(changes, 1);
    assert_eq!(out, "import { api } from './api-endpoint';");
}

#[test]
fn test_update_imports_malformed_left_alone() {
    // an unterminated quote is not a recognized construct
    let (out, changes) = update_imports("import x from 'Unterminated");
    assert_eq!(changes, 0);
    assert_eq!(out, "import x from 'Unterminated");

    // an empty specifier is not a recognized construct
    let (out2, changes2) = update_imports("import x from ''");
    assert_eq!(changes2, 0);
    assert_eq!(out2, "import x from ''");

    // `import` without a following specifier is plain text
    let (out3, changes3) = update_imports("we import Goods from Abroad");
    assert_eq!(changes3, 0);
    assert_eq!(out3, "we import Goods from Abroad");
}

#[test]
fn test_update_imports_empty_input() {
    let (out, changes) = update_imports("");
    assert_eq!(changes, 0);
    assert_eq!(out, "");
}

#[test]
fn test_update_imports_absolute_specifier() {
    let (out, changes) = update_imports("import a from '/Foo/BarBaz';");
    assert_eq!(changes, 2);
    assert_eq!(out, "import a from '/foo/bar-baz';");
}
