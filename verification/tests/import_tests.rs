use std::collections::HashMap;

use lattice::syntax::imports::{
    find_imports, sites_from_captures, splice, ImportAction, ImportError, ImportEvent, ImportResolver, skipped_import, wrap_import,
};

/// Drives the resolver against an in-memory set of files, named by their
/// paths (which are their own canonical paths, all in one directory).
fn resolve_in_memory(source: &str, files: &HashMap<&str, &str>) -> (Result<String, ImportError>, Vec<String>) {
    let mut reads = Vec::new();
    let (mut resolver, mut action) = ImportResolver::start(source.to_string(), ".".to_string());
    loop {
        let event = match action {
            ImportAction::Done(text) => return (Ok(text), reads),
            ImportAction::Failed(e) => return (Err(e), reads),
            ImportAction::Resolve { dir, path } => {
                assert_eq!(dir, ".");
                if files.contains_key(path.as_str()) {
                    ImportEvent::Resolved { file: path.clone(), dir: ".".to_string() }
                } else {
                    ImportEvent::NotResolved { message: "No such file".to_string() }
                }
            }
            ImportAction::Read { file } => {
                reads.push(file.clone());
                ImportEvent::Loaded { contents: files[file.as_str()].to_string() }
            }
        };
        action = resolver.step(event);
    }
}

#[test]
fn test_no_imports() {
    let source = "let x = 1\nlet y = 2";
    let (mut resolver, action) = ImportResolver::start(source.to_string(), ".".to_string());
    let result = match action {
        ImportAction::Done(text) => text,
        other => panic!("expected the source back, got {:?}", other),
    };
    assert_eq!(result, source);
    assert!(matches!(
        resolver.step(ImportEvent::Loaded { contents: String::new() }),
        ImportAction::Failed(ImportError::UnexpectedEvent)
    ));
}

#[test]
fn simple_import_is_wrapped_in_comments() {
    let files = HashMap::from([("types.lat", "type Foo { x: Int }")]);
    let source = "import \"types.lat\"\nlet foo = Foo { x: 1 }";
    let (result, reads) = resolve_in_memory(source, &files);
    let result = result.unwrap();
    assert_eq!(
        result,
        "// BEGIN import \"types.lat\"\ntype Foo { x: Int }\n// END import \"types.lat\"\n\nlet foo = Foo { x: 1 }"
    );
    assert_eq!(reads, vec!["types.lat".to_string()]);
}

#[test]
fn nested_imports_resolve_inner_first() {
    let files = HashMap::from([
        ("base.lat", "type Base { id: Int }"),
        ("derived.lat", "import \"base.lat\"\ntype Derived { base: Base }"),
    ]);
    let source = "import \"derived.lat\"\nlet d = Derived { base: Base { id: 1 } }";
    let (result, _) = resolve_in_memory(source, &files);
    let result = result.unwrap();
    assert!(result.contains("type Base { id: Int }"));
    assert!(result.contains("type Derived { base: Base }"));
    assert!(result.contains("let d = Derived"));
    assert!(result.find("type Base").unwrap() < result.find("type Derived").unwrap());
}

#[test]
fn circular_import_is_detected() {
    let files = HashMap::from([("a.lat", "import \"b.lat\""), ("b.lat", "import \"a.lat\"")]);
    let (result, _) = resolve_in_memory("import \"a.lat\"", &files);
    match result {
        Err(ImportError::Circular { file }) => assert_eq!(file, "a.lat"),
        other => panic!("expected a circular import, got {:?}", other),
    }
}

#[test]
fn shared_file_is_included_once() {
    let files = HashMap::from([
        ("shared.lat", "type Shared { x: Int }"),
        ("a.lat", "import \"shared.lat\"\ntype A { s: Shared }"),
        ("b.lat", "import \"shared.lat\"\ntype B { s: Shared }"),
    ]);
    let source = "import \"a.lat\"\nimport \"b.lat\"";
    let (result, reads) = resolve_in_memory(source, &files);
    let result = result.unwrap();
    assert_eq!(result.matches("type Shared { x: Int }").count(), 1);
    assert!(result.contains("// import \"shared.lat\" (already imported)\n"));
    assert_eq!(reads, vec!["a.lat".to_string(), "shared.lat".to_string(), "b.lat".to_string()]);
}

#[test]
fn missing_file_names_the_path() {
    let files = HashMap::new();
    let (result, _) = resolve_in_memory("import \"nonexistent.lat\"", &files);
    match result {
        Err(ImportError::CannotResolve { path, message }) => {
            assert_eq!(path, "nonexistent.lat");
            assert_eq!(message, "No such file");
        }
        other => panic!("expected an unresolved path, got {:?}", other),
    }
}

#[test]
fn unreadable_file_names_the_file() {
    let (mut resolver, action) = ImportResolver::start("import \"x.lat\"".to_string(), "/src".to_string());
    match action {
        ImportAction::Resolve { dir, path } => {
            assert_eq!(dir, "/src");
            assert_eq!(path, "x.lat");
        }
        other => panic!("expected a path to resolve, got {:?}", other),
    }
    let action = resolver.step(ImportEvent::Resolved { file: "/src/x.lat".to_string(), dir: "/src".to_string() });
    assert!(matches!(action, ImportAction::Read { ref file } if file == "/src/x.lat"));
    match resolver.step(ImportEvent::NotLoaded { message: "denied".to_string() }) {
        ImportAction::Failed(ImportError::CannotRead { file, message }) => {
            assert_eq!(file, "/src/x.lat");
            assert_eq!(message, "denied");
        }
        other => panic!("expected a read failure, got {:?}", other),
    }
}

#[test]
fn import_preserves_surrounding_code() {
    let files = HashMap::from([("types.lat", "type T { x: Int }")]);
    let source = "// Header comment\nlet before = 1\nimport \"types.lat\"\nlet after = 2\n// Footer";
    let (result, _) = resolve_in_memory(source, &files);
    let result = result.unwrap();
    assert!(result.starts_with("// Header comment\nlet before = 1\n// BEGIN import \"types.lat\"\n"));
    assert!(result.ends_with("// END import \"types.lat\"\n\nlet after = 2\n// Footer"));
}

#[test]
fn sites_and_splicing() {
    let source = "a import   \"p.lat\" b import \"q\" c";
    let sites = find_imports(source).unwrap();
    assert_eq!(sites.len(), 2);
    assert_eq!(sites[0].path, "p.lat");
    assert_eq!(&source[sites[0].start..sites[0].end], "import   \"p.lat\"");
    assert_eq!(sites[1].path, "q");
    let out = splice(source, &sites, &vec!["1".to_string(), "22".to_string()]);
    assert_eq!(out, "a 1 b 22 c");
    assert_eq!(skipped_import("p"), "// import \"p\" (already imported)\n");
    assert_eq!(wrap_import("p", "t"), "// BEGIN import \"p\"\nt\n// END import \"p\"\n");
}

#[test]
fn empty_quotes_are_no_import() {
    let sites = find_imports("import \"\" and importx").unwrap();
    assert!(sites.is_empty());
}

#[test]
fn test_simple_import() {
    let files = HashMap::from([("types.lat", "type Foo { x: Int }")]);
    let source = r#"import "types.lat"
let foo = Foo { x: 1 }"#;
    let result = resolve_in_memory(source, &files).0.unwrap();
    assert!(result.contains("type Foo { x: Int }"));
    assert!(result.contains("let foo = Foo { x: 1 }"));
    assert!(result.contains("// BEGIN import \"types.lat\""));
    assert!(result.contains("// END import \"types.lat\""));
}

#[test]
fn test_nested_imports() {
    let files = HashMap::from([
        ("base.lat", "type Base { id: Int }"),
        ("derived.lat", r#"import "base.lat"
type Derived { base: Base }"#),
    ]);
    let source = r#"import "derived.lat"
let d = Derived { base: Base { id: 1 } }"#;
    let result = resolve_in_memory(source, &files).0.unwrap();
    assert!(result.contains("type Base { id: Int }"));
    assert!(result.contains("type Derived { base: Base }"));
    assert!(result.contains("let d = Derived"));
}

#[test]
fn test_circular_import_detection() {
    let files = HashMap::from([("a.lat", r#"import "b.lat""#), ("b.lat", r#"import "a.lat""#)]);
    let source = r#"import "a.lat""#;
    let result = resolve_in_memory(source, &files).0;
    assert!(result.is_err());
    let err = result.unwrap_err().message();
    assert!(err.contains("Circular import"));
}

#[test]
fn test_multiple_imports() {
    let files = HashMap::from([
        ("types.lat", "type Person { name: String }"),
        ("funcs.lat", "def greet(p: Person) -> String { p.name }"),
    ]);
    let source = r#"import "types.lat"
import "funcs.lat"
greet(Person { name: "Alice" })"#;
    let result = resolve_in_memory(source, &files).0.unwrap();
    assert!(result.contains("type Person"));
    assert!(result.contains("def greet"));
    assert!(result.contains("greet(Person"));
}

#[test]
fn test_import_file_not_found() {
    let files = HashMap::new();
    let source = r#"import "nonexistent.lat""#;
    let result = resolve_in_memory(source, &files).0;
    assert!(result.is_err());
    let err = result.unwrap_err().message();
    assert!(err.contains("Cannot resolve import"));
}

#[test]
fn test_same_file_imported_twice_from_different_files() {
    let files = HashMap::from([
        ("shared.lat", "type Shared { x: Int }"),
        ("a.lat", r#"import "shared.lat"
type A { s: Shared }"#),
        ("b.lat", r#"import "shared.lat"
type B { s: Shared }"#),
    ]);
    let source = r#"import "a.lat"
import "b.lat""#;
    let result = resolve_in_memory(source, &files).0.unwrap();
    assert!(result.contains("type Shared { x: Int }"));
    assert!(result.contains("type A { s: Shared }"));
    assert!(result.contains("type B { s: Shared }"));
    let shared_count = result.matches("type Shared { x: Int }").count();
    assert_eq!(shared_count, 1, "Shared should be included exactly once");
    assert!(result.contains("already imported"));
}

#[test]
fn test_import_preserves_surrounding_code() {
    let files = HashMap::from([("types.lat", "type T { x: Int }")]);
    let source = r#"// Header comment
let before = 1
import "types.lat"
let after = 2
// Footer"#;
    let result = resolve_in_memory(source, &files).0.unwrap();
    assert!(result.contains("// Header comment"));
    assert!(result.contains("let before = 1"));
    assert!(result.contains("type T { x: Int }"));
    assert!(result.contains("let after = 2"));
    assert!(result.contains("// Footer"));
}

#[test]
fn error_messages_name_what_failed() {
    assert_eq!(ImportError::Circular { file: "a.lat".to_string() }.message(), "Circular import detected: a.lat");
    assert_eq!(
        ImportError::CannotRead { file: "f".to_string(), message: "denied".to_string() }.message(),
        "Cannot read imported file 'f': denied"
    );
}

#[test]
fn test_import_in_subdirectory() {
    let files = HashMap::from([("lib/utils.lat", "def helper() -> Int { 42 }")]);
    let source = "import \"lib/utils.lat\"\nhelper()";
    let (result, reads) = resolve_in_memory(source, &files);
    let result = result.unwrap();
    assert!(result.contains("def helper"));
    assert!(result.contains("helper()"));
    assert_eq!(reads, vec!["lib/utils.lat".to_string()]);
}

#[test]
fn sites_come_from_captures() {
    let source = "import \"a.lat\"\nx";
    let sites = sites_from_captures(source, &vec![(0, 14, Some((8, 13)))]).unwrap();
    assert_eq!(sites.len(), 1);
    assert_eq!((sites[0].start, sites[0].end, sites[0].path.as_str()), (0, 14, "a.lat"));
    assert!(matches!(sites_from_captures(source, &vec![(0, 14, None)]), Err(ImportError::Pattern)));
    assert_eq!(find_imports("no imports here").unwrap().len(), 0);
}
