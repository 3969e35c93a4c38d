use winrt_import::grammar::{parse_selector, ParseError};
use winrt_import::selector::{
    check_for_module_instead_of_type, is_own_lowercase, namespace_literal_to_rough_namespace,
    push_rough_char, use_tree_to_namespace_types, NamespaceTypes, SelectorError,
    SelectorErrorKind, TypeLimit, UseTree,
};
use winrt_import::syntax::{SyntaxError, SyntaxErrorKind};

fn path(segments: &[&str], tail: UseTree) -> UseTree {
    let mut tree = tail;
    for segment in segments.iter().rev() {
        tree = UseTree::Path { ident: segment.to_string(), tree: Box::new(tree) };
    }
    tree
}

fn name(ident: &str) -> UseTree {
    UseTree::Name { ident: ident.to_string() }
}

fn named(namespace: &str, names: &[&str]) -> NamespaceTypes {
    NamespaceTypes {
        namespace: namespace.to_string(),
        limit: TypeLimit::Named(names.iter().map(|n| n.to_string()).collect()),
    }
}

fn rejected(kind: SelectorErrorKind, item: Option<usize>) -> SelectorError {
    SelectorError { kind, item }
}

#[test]
fn rough_namespace_drops_quotes_and_underscores() {
    assert_eq!(namespace_literal_to_rough_namespace("Windows.Foundation"), "windows.foundation");
    assert_eq!(namespace_literal_to_rough_namespace("machine_learning"), "machinelearning");
    assert_eq!(namespace_literal_to_rough_namespace("\"a\".B_c"), "a.bc");
    assert_eq!(namespace_literal_to_rough_namespace(""), "");
    assert_eq!(namespace_literal_to_rough_namespace("__\"\""), "");
}

#[test]
fn rough_namespace_uses_the_full_lowercase_mapping() {
    // U+0130 has a lowercase mapping of two characters.
    assert_eq!(namespace_literal_to_rough_namespace("\u{130}"), "i\u{307}");
    assert_eq!(namespace_literal_to_rough_namespace("ÄB"), "äb");
}

#[test]
fn push_rough_char_appends_what_it_is_given() {
    let mut text = String::from("ab");
    push_rough_char(&mut text, 'C', &vec!['c']);
    assert_eq!(text, "abc");
    push_rough_char(&mut text, '_', &vec!['_']);
    assert_eq!(text, "abc");
    push_rough_char(&mut text, '"', &vec!['"']);
    assert_eq!(text, "abc");
    push_rough_char(&mut text, 'X', &vec!['y', 'z']);
    assert_eq!(text, "abcyz");
}

#[test]
fn module_check_compares_with_the_lowercase_form() {
    assert!(is_own_lowercase("abc", "abc"));
    assert!(!is_own_lowercase("Abc", "abc"));
    assert_eq!(
        check_for_module_instead_of_type("collections"),
        Err(SelectorErrorKind::ModuleInsteadOfType)
    );
    assert_eq!(check_for_module_instead_of_type("Uri"), Ok(()));
    assert_eq!(check_for_module_instead_of_type("uRI"), Ok(()));
    assert_eq!(
        check_for_module_instead_of_type("_"),
        Err(SelectorErrorKind::ModuleInsteadOfType)
    );
    assert_eq!(check_for_module_instead_of_type(""), Err(SelectorErrorKind::ModuleInsteadOfType));
}

#[test]
fn glob_selects_all() {
    let tree = path(&["a", "b", "c"], UseTree::Glob);
    assert_eq!(
        use_tree_to_namespace_types(&tree),
        Ok(NamespaceTypes { namespace: "a.b.c".to_string(), limit: TypeLimit::All })
    );
}

#[test]
fn glob_alone_selects_the_empty_namespace() {
    assert_eq!(
        use_tree_to_namespace_types(&UseTree::Glob),
        Ok(NamespaceTypes { namespace: String::new(), limit: TypeLimit::All })
    );
}

#[test]
fn namespace_is_taken_in_rough_form() {
    let tree = path(&["Microsoft", "AI", "machine_learning"], UseTree::Glob);
    assert_eq!(
        use_tree_to_namespace_types(&tree),
        Ok(NamespaceTypes {
            namespace: "microsoft.ai.machinelearning".to_string(),
            limit: TypeLimit::All
        })
    );
}

#[test]
fn group_selects_its_names_in_order() {
    let tree = path(&["a", "b"], UseTree::Group { items: vec![name("X"), name("Y"), name("X")] });
    assert_eq!(use_tree_to_namespace_types(&tree), Ok(named("a.b", &["X", "Y", "X"])));
}

#[test]
fn empty_group_selects_no_name() {
    let tree = path(&["a"], UseTree::Group { items: vec![] });
    assert_eq!(use_tree_to_namespace_types(&tree), Ok(named("a", &[])));
}

#[test]
fn bare_leaf_selects_one_name() {
    let tree = path(&["windows", "foundation"], name("Uri"));
    assert_eq!(use_tree_to_namespace_types(&tree), Ok(named("windows.foundation", &["Uri"])));
}

#[test]
fn lowercase_leaf_is_a_module() {
    let tree = path(&["a", "b"], name("x"));
    assert_eq!(
        use_tree_to_namespace_types(&tree),
        Err(rejected(SelectorErrorKind::ModuleInsteadOfType, None))
    );
}

#[test]
fn rename_at_the_end_is_rejected() {
    let tree = path(
        &["a", "b"],
        UseTree::Rename { ident: "C".to_string(), rename: "D".to_string() },
    );
    assert_eq!(
        use_tree_to_namespace_types(&tree),
        Err(rejected(SelectorErrorKind::RenameUnsupported, None))
    );
}

#[test]
fn first_offending_member_of_a_group_is_reported() {
    let items = vec![
        name("X"),
        UseTree::Rename { ident: "Y".to_string(), rename: "Z".to_string() },
        name("lower"),
    ];
    let tree = path(&["a"], UseTree::Group { items });
    assert_eq!(
        use_tree_to_namespace_types(&tree),
        Err(rejected(SelectorErrorKind::RenameUnsupported, Some(1)))
    );

    let items = vec![name("X"), name("lower"), UseTree::Glob];
    let tree = path(&["a"], UseTree::Group { items });
    assert_eq!(
        use_tree_to_namespace_types(&tree),
        Err(rejected(SelectorErrorKind::ModuleInsteadOfType, Some(1)))
    );
}

#[test]
fn nested_members_are_rejected() {
    for nested in [
        path(&["b"], name("C")),
        UseTree::Glob,
        UseTree::Group { items: vec![name("C")] },
    ] {
        let tree = path(&["a"], UseTree::Group { items: vec![nested] });
        assert_eq!(
            use_tree_to_namespace_types(&tree),
            Err(rejected(SelectorErrorKind::NestedPath, Some(0)))
        );
    }
}

#[test]
fn messages_of_selector_errors() {
    assert_eq!(
        rejected(SelectorErrorKind::ModuleInsteadOfType, None).message(),
        "Expected `*` or type name, but found what appears to be a module"
    );
    assert_eq!(
        rejected(SelectorErrorKind::RenameUnsupported, Some(2)).message(),
        "Renaming syntax is not supported"
    );
    assert_eq!(rejected(SelectorErrorKind::NestedPath, Some(0)).message(), "Nested paths not allowed");
}

#[test]
fn contains_type_compares_names_exactly() {
    let all = NamespaceTypes { namespace: "a".to_string(), limit: TypeLimit::All };
    assert!(all.contains_type("Anything"));
    let some = named("a", &["Uri", "IStringable"]);
    assert!(some.contains_type("Uri"));
    assert!(some.contains_type("IStringable"));
    assert!(!some.contains_type("uri"));
    assert!(!some.contains_type("Ur"));
    assert!(!named("a", &[]).contains_type(""));
}

#[test]
fn same_as_and_duplicate_agree_with_equality() {
    let a = named("a.b", &["X", "Y"]);
    assert!(a.same_as(&a.duplicate()));
    assert_eq!(a.duplicate(), a);
    assert!(!a.same_as(&named("a.b", &["Y", "X"])));
    assert!(!a.same_as(&named("a.b", &["X"])));
    assert!(!a.same_as(&named("a.c", &["X", "Y"])));
    let all = NamespaceTypes { namespace: "a.b".to_string(), limit: TypeLimit::All };
    assert!(!a.same_as(&all));
    assert!(all.same_as(&all.duplicate()));
}

#[test]
fn selector_text_with_wildcard() {
    assert_eq!(
        parse_selector("a.b.c.*"),
        Ok(NamespaceTypes { namespace: "a.b.c".to_string(), limit: TypeLimit::All })
    );
}

#[test]
fn selector_text_with_group() {
    assert_eq!(parse_selector("a.b.{X, Y}"), Ok(named("a.b", &["X", "Y"])));
}

#[test]
fn selector_text_with_lowercase_leaf() {
    let error = parse_selector("a.b.x").unwrap_err();
    assert_eq!(
        error,
        ParseError::Selector(rejected(SelectorErrorKind::ModuleInsteadOfType, None))
    );
    match error {
        ParseError::Selector(error) => assert!(error.message().contains("appears to be a module")),
        ParseError::Syntax(_) => unreachable!(),
    }
}

#[test]
fn selector_text_with_rename() {
    assert_eq!(
        parse_selector("a.b.c as D"),
        Err(ParseError::Selector(rejected(SelectorErrorKind::RenameUnsupported, None)))
    );
    assert_eq!(
        parse_selector("a.{B as C}"),
        Err(ParseError::Selector(rejected(SelectorErrorKind::RenameUnsupported, Some(0))))
    );
}

#[test]
fn selector_text_with_nested_group() {
    assert_eq!(
        parse_selector("a.{B, c.D}"),
        Err(ParseError::Selector(rejected(SelectorErrorKind::NestedPath, Some(1))))
    );
    assert_eq!(
        parse_selector("a.{{B}}"),
        Err(ParseError::Selector(rejected(SelectorErrorKind::NestedPath, Some(0))))
    );
}

#[test]
fn selector_text_with_bare_leaf() {
    assert_eq!(parse_selector("windows.ui.Colors"), Ok(named("windows.ui", &["Colors"])));
    assert_eq!(parse_selector("  windows . ui\n.Colors "), Ok(named("windows.ui", &["Colors"])));
}

#[test]
fn selector_text_that_is_no_tree() {
    let syntax = |kind, at| Err(ParseError::Syntax(SyntaxError { kind, at }));
    assert_eq!(parse_selector(""), syntax(SyntaxErrorKind::ExpectedTree, 0));
    assert_eq!(parse_selector("a."), syntax(SyntaxErrorKind::ExpectedTree, 2));
    assert_eq!(parse_selector("a..b"), syntax(SyntaxErrorKind::ExpectedTree, 2));
    assert_eq!(parse_selector("a.{X"), syntax(SyntaxErrorKind::ExpectedSeparator, 4));
    assert_eq!(parse_selector("a.{X Y}"), syntax(SyntaxErrorKind::ExpectedSeparator, 4));
    assert_eq!(parse_selector("a.{}"), syntax(SyntaxErrorKind::ExpectedTree, 3));
    assert_eq!(parse_selector("a.{X,}"), syntax(SyntaxErrorKind::ExpectedTree, 5));
    assert_eq!(parse_selector("a.B as"), syntax(SyntaxErrorKind::ExpectedName, 4));
    assert_eq!(parse_selector("a.B as *"), syntax(SyntaxErrorKind::ExpectedName, 4));
    assert_eq!(parse_selector("a.* b"), syntax(SyntaxErrorKind::TrailingTokens, 3));
    assert_eq!(parse_selector(", a"), syntax(SyntaxErrorKind::ExpectedTree, 0));
}
