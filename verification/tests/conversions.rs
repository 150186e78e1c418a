use kebabize::case::acronym_to_kebab;
use kebabize::case::camel_to_kebab;
use kebabize::case::detect_case;
use kebabize::case::needs_conversion;
use kebabize::case::pascal_to_kebab;
use kebabize::case::pascal_to_kebab_smart;
use kebabize::case::Case;

#[test]
fn test_detect_case() {
    assert_eq!(detect_case("MyComponent"), Case::Pascal);
    assert_eq!(detect_case("myComponent"), Case::Camel);
    assert_eq!(detect_case("XMLHTTPRequest"), Case::Acronym);
    assert_eq!(detect_case("my-component"), Case::Kebab);
}

#[test]
fn test_pascal_to_kebab_smart() {
    // Pascal case
    assert_eq!(pascal_to_kebab_smart("MyComponent"), "my-component");
    assert_eq!(pascal_to_kebab_smart("ButtonComponent"), "button-component");

    // Camel case
    assert_eq!(pascal_to_kebab_smart("myComponent"), "my-component");
    assert_eq!(pascal_to_kebab_smart("buttonComponent"), "button-component");
    assert_eq!(pascal_to_kebab_smart("myXMLParser"), "my-xml-parser");
    assert_eq!(pascal_to_kebab_smart("getHTTPResponse"), "get-http-response");

    // Acronyms
    assert_eq!(pascal_to_kebab_smart("API"), "api");
    assert_eq!(pascal_to_kebab_smart("XMLHTTPRequest"), "xml-http-request");
    assert_eq!(pascal_to_kebab_smart("MyXMLParser"), "my-xml-parser");
    assert_eq!(pascal_to_kebab_smart("APIEndpoint"), "api-endpoint");
    assert_eq!(pascal_to_kebab_smart("MyAPIService"), "my-api-service");

    // Already kebab case
    assert_eq!(pascal_to_kebab_smart("already-kebab"), "already-kebab");
}

#[test]
fn test_needs_conversion() {
    assert!(needs_conversion("MyComponent"));
    assert!(needs_conversion("ButtonComponent"));
    assert!(!needs_conversion("my-component"));
    assert!(!needs_conversion("regular-file"));
}

#[test]
fn test_each_converter_directly() {
    assert_eq!(pascal_to_kebab("ButtonComponent"), "button-component");
    assert_eq!(camel_to_kebab("myComponent"), "my-component");
    assert_eq!(acronym_to_kebab("XMLHTTPRequest"), "xml-http-request");
    assert_eq!(acronym_to_kebab("API"), "api");
    assert_eq!(acronym_to_kebab("MyAPIService"), "my-api-service");
}

#[test]
fn test_smart_converter_idempotent() {
    let inputs = vec![
        "MyComponent",
        "ButtonComponent",
        "myComponent",
        "myXMLParser",
        "getHTTPResponse",
        "API",
        "XMLHTTPRequest",
        "APIEndpoint",
        "already-kebab",
        "",
    ];
    for s in inputs {
        let once = pascal_to_kebab_smart(s);
        let twice = pascal_to_kebab_smart(&once);
        assert_eq!(twice, once);
    }
}

#[test]
fn test_smart_converter_lowercase_closure() {
    let inputs = vec![
        "MyComponent",
        "ButtonComponent",
        "myXMLParser",
        "getHTTPResponse",
        "API",
        "XMLHTTPRequest",
        "MyAPIService",
    ];
    for s in inputs {
        let out = pascal_to_kebab_smart(s);
        assert!(!out.chars().any(|c| c.is_uppercase()));
    }
}

#[test]
fn test_no_uppercase_short_circuit() {
    assert_eq!(pascal_to_kebab_smart("already-kebab"), "already-kebab");
    assert_eq!(pascal_to_kebab_smart(""), "");
    assert_eq!(pascal_to_kebab_smart("file123"), "file123");
    assert_eq!(pascal_to_kebab_smart("with_underscore"), "with_underscore");
    assert!(!needs_conversion("file123"));
}

#[test]
fn test_two_consecutive_uppercase_is_acronym() {
    assert_eq!(detect_case("IDx"), Case::Acronym);
    // the run gives its last letter to the following word
    assert_eq!(pascal_to_kebab_smart("IDx"), "i-dx");
    assert_eq!(detect_case("Id"), Case::Pascal);
    assert_eq!(pascal_to_kebab_smart("Id"), "id");
}

#[test]
fn test_detect_case_edges() {
    assert_eq!(detect_case(""), Case::Kebab);
    assert_eq!(detect_case("A"), Case::Pascal);
    assert_eq!(detect_case("aB"), Case::Camel);
    assert_eq!(detect_case("AB"), Case::Acronym);
    assert_eq!(detect_case("file2Name"), Case::Camel);
}
