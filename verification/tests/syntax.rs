use winrt_import::grammar::{parse_declaration_text, Declaration, PackageDependency};
use winrt_import::selector::UseTree;
use winrt_import::syntax::{
    error_offset, is_space_char, mark_token, parse_use_tree, parse_use_trees, token_offsets,
    tokenize, SyntaxError, SyntaxErrorKind, Token,
};

fn word(text: &str) -> Token {
    Token::Ident(text.to_string())
}

fn path(segments: &[&str], tail: UseTree) -> UseTree {
    let mut tree = tail;
    for segment in segments.iter().rev() {
        tree = UseTree::Path { ident: segment.to_string(), tree: Box::new(tree) };
    }
    tree
}

fn name(ident: &str) -> UseTree {
    UseTree::Name { ident: ident.to_string() }
}

fn failure<T>(kind: SyntaxErrorKind, at: usize) -> Result<T, SyntaxError> {
    Err(SyntaxError { kind, at })
}

#[test]
fn space_and_marks() {
    for c in [' ', '\t', '\n', '\r'] {
        assert!(is_space_char(c));
        assert_eq!(mark_token(c), None);
    }
    assert!(!is_space_char('a'));
    assert!(!is_space_char('.'));
    assert_eq!(mark_token('.'), Some(Token::Dot));
    assert_eq!(mark_token('*'), Some(Token::Star));
    assert_eq!(mark_token('{'), Some(Token::Open));
    assert_eq!(mark_token('}'), Some(Token::Close));
    assert_eq!(mark_token(','), Some(Token::Comma));
    assert_eq!(mark_token(':'), Some(Token::Colon));
    assert_eq!(mark_token('a'), None);
    assert_eq!(mark_token('_'), None);
}

#[test]
fn tokens_of_a_selector() {
    assert_eq!(
        tokenize("a.b.{X, Y}"),
        vec![
            word("a"),
            Token::Dot,
            word("b"),
            Token::Dot,
            Token::Open,
            word("X"),
            Token::Comma,
            word("Y"),
            Token::Close
        ]
    );
    assert_eq!(tokenize("abc.*"), vec![word("abc"), Token::Dot, Token::Star]);
}

#[test]
fn tokens_of_nothing() {
    assert_eq!(tokenize(""), vec![]);
    assert_eq!(tokenize(" \t\r\n"), vec![]);
}

#[test]
fn words_are_longest_runs() {
    assert_eq!(tokenize("nuget: Foo.Bar"), vec![
        word("nuget"),
        Token::Colon,
        word("Foo"),
        Token::Dot,
        word("Bar")
    ]);
    assert_eq!(tokenize("a b"), vec![word("a"), word("b")]);
    assert_eq!(tokenize("ab"), vec![word("ab")]);
    assert_eq!(tokenize("\"q\"_é"), vec![word("\"q\"_é")]);
    assert_eq!(tokenize("x"), vec![word("x")]);
}

#[test]
fn one_tree() {
    assert_eq!(parse_use_tree("a.b.*"), Ok(path(&["a", "b"], UseTree::Glob)));
    assert_eq!(parse_use_tree("Leaf"), Ok(name("Leaf")));
    assert_eq!(parse_use_tree("*"), Ok(UseTree::Glob));
    assert_eq!(
        parse_use_tree("a.B as C"),
        Ok(path(&["a"], UseTree::Rename { ident: "B".to_string(), rename: "C".to_string() }))
    );
    assert_eq!(
        parse_use_tree("a.{B, c.{D, *}, E as F}"),
        Ok(path(
            &["a"],
            UseTree::Group {
                items: vec![
                    name("B"),
                    path(&["c"], UseTree::Group { items: vec![name("D"), UseTree::Glob] }),
                    UseTree::Rename { ident: "E".to_string(), rename: "F".to_string() },
                ]
            }
        ))
    );
}

#[test]
fn as_is_a_name_where_no_name_precedes() {
    assert_eq!(parse_use_tree("as"), Ok(name("as")));
    assert_eq!(parse_use_tree("as.B"), Ok(path(&["as"], name("B"))));
    assert_eq!(
        parse_use_tree("as as as"),
        Ok(UseTree::Rename { ident: "as".to_string(), rename: "as".to_string() })
    );
}

#[test]
fn one_tree_and_more() {
    assert_eq!(parse_use_tree("a.B c.D"), failure(SyntaxErrorKind::TrailingTokens, 3));
    assert_eq!(parse_use_tree("a.B }"), failure(SyntaxErrorKind::TrailingTokens, 3));
}

#[test]
fn trees_in_a_row() {
    assert_eq!(parse_use_trees(""), Ok(vec![]));
    assert_eq!(
        parse_use_trees("a.b.* c.{D} E"),
        Ok(vec![
            path(&["a", "b"], UseTree::Glob),
            path(&["c"], UseTree::Group { items: vec![name("D")] }),
            name("E"),
        ])
    );
    assert_eq!(parse_use_trees("a.* ."), failure(SyntaxErrorKind::ExpectedTree, 3));
    assert_eq!(parse_use_trees("a.{B"), failure(SyntaxErrorKind::ExpectedSeparator, 4));
}

#[test]
fn declaration_with_both_kinds_of_dependency() {
    let text = "dependencies\n    os\n    nuget: Microsoft.AI.MachineLearning\ntypes\n    microsoft.ai.machine_learning.*";
    assert_eq!(
        parse_declaration_text(text),
        Ok(Declaration {
            dependencies: vec![
                PackageDependency::Os,
                PackageDependency::Nuget("Microsoft.AI.MachineLearning".to_string()),
            ],
            foundation: false,
            types: vec![path(&["microsoft", "ai", "machine_learning"], UseTree::Glob)],
        })
    );
}

#[test]
fn declaration_with_foundation() {
    let declaration =
        parse_declaration_text("dependencies os types foundation windows.ui.{Colors} a.B").unwrap();
    assert!(declaration.foundation);
    assert!(declaration.uses_os());
    assert_eq!(declaration.package_names(), Vec::<String>::new());
    assert_eq!(
        declaration.types,
        vec![
            path(&["windows", "ui"], UseTree::Group { items: vec![name("Colors")] }),
            path(&["a"], name("B")),
        ]
    );
}

#[test]
fn declaration_package_names_keep_their_order() {
    let declaration =
        parse_declaration_text("dependencies nuget: B.C nuget: A os nuget:B.C types a.*").unwrap();
    assert_eq!(declaration.package_names(), vec!["B.C", "A", "B.C"]);
    assert!(declaration.uses_os());
    let declaration = parse_declaration_text("dependencies nuget: A types a.*").unwrap();
    assert!(!declaration.uses_os());
    assert!(!declaration.foundation);
}

#[test]
fn declaration_errors() {
    assert_eq!(parse_declaration_text(""), failure(SyntaxErrorKind::ExpectedDependencies, 0));
    assert_eq!(
        parse_declaration_text("types a.*"),
        failure(SyntaxErrorKind::ExpectedDependencies, 0)
    );
    assert_eq!(
        parse_declaration_text("dependencies types a.*"),
        failure(SyntaxErrorKind::ExpectedDependency, 1)
    );
    assert_eq!(parse_declaration_text("dependencies"), failure(SyntaxErrorKind::ExpectedDependency, 1));
    // The word after `nuget:` is the name of a package, whatever it is.
    assert_eq!(
        parse_declaration_text("dependencies nuget: types a.*"),
        failure(SyntaxErrorKind::ExpectedTypes, 4)
    );
    assert_eq!(
        parse_declaration_text("dependencies nuget: * types a.*"),
        failure(SyntaxErrorKind::ExpectedPackage, 3)
    );
    assert_eq!(
        parse_declaration_text("dependencies nuget:"),
        failure(SyntaxErrorKind::ExpectedPackage, 3)
    );
    assert_eq!(
        parse_declaration_text("dependencies os nuget Foo types a.*"),
        failure(SyntaxErrorKind::ExpectedTypes, 2)
    );
    assert_eq!(parse_declaration_text("dependencies os"), failure(SyntaxErrorKind::ExpectedTypes, 2));
    // A dot and a word behind the name of a package belong to the name.
    assert_eq!(
        parse_declaration_text("dependencies os nuget: Foo. types a.*"),
        failure(SyntaxErrorKind::ExpectedTypes, 7)
    );
    assert_eq!(
        parse_declaration_text("dependencies os nuget: Foo. * types a.*"),
        failure(SyntaxErrorKind::ExpectedTypes, 5)
    );
    assert_eq!(parse_declaration_text("dependencies os types"), failure(SyntaxErrorKind::Empty, 3));
    assert_eq!(
        parse_declaration_text("dependencies os types foundation"),
        failure(SyntaxErrorKind::Empty, 4)
    );
    assert_eq!(
        parse_declaration_text("dependencies os types a.{B"),
        failure(SyntaxErrorKind::ExpectedSeparator, 7)
    );
    assert_eq!(
        parse_declaration_text("dependencies os types a.B as"),
        failure(SyntaxErrorKind::ExpectedName, 7)
    );
}

#[test]
fn messages_of_syntax_errors() {
    let text = |kind| SyntaxError { kind, at: 0 }.message();
    assert_eq!(text(SyntaxErrorKind::ExpectedTree), "expected a path, `*` or `{`");
    assert_eq!(text(SyntaxErrorKind::ExpectedName), "expected a name after `as`");
    assert_eq!(text(SyntaxErrorKind::ExpectedSeparator), "expected `,` or `}`");
    assert_eq!(text(SyntaxErrorKind::Empty), "expected at least one path");
    assert_eq!(text(SyntaxErrorKind::TrailingTokens), "unexpected token after the path");
    assert_eq!(text(SyntaxErrorKind::ExpectedDependencies), "expected `dependencies`");
    assert_eq!(text(SyntaxErrorKind::ExpectedDependency), "expected `os` or `nuget:`");
    assert_eq!(text(SyntaxErrorKind::ExpectedPackage), "expected the name of a package");
    assert_eq!(text(SyntaxErrorKind::ExpectedTypes), "expected `types`");
}

#[test]
fn tokens_begin_where_they_are_written() {
    assert_eq!(token_offsets("a.b.{X, Y}"), vec![0, 1, 2, 3, 4, 5, 6, 8, 9]);
    assert_eq!(token_offsets("  ab  cd\n.é*"), vec![2, 6, 9, 10, 11]);
    assert_eq!(token_offsets(""), Vec::<usize>::new());
    assert_eq!(token_offsets("   "), Vec::<usize>::new());
    let text = "dependencies os types é.{B ,c}";
    let tokens = tokenize(text);
    let starts = token_offsets(text);
    assert_eq!(tokens.len(), starts.len());
    let chars: Vec<char> = text.chars().collect();
    for (token, start) in tokens.iter().zip(starts) {
        let written: String = match token {
            Token::Ident(word) => word.clone(),
            Token::Dot => ".".to_string(),
            Token::Star => "*".to_string(),
            Token::Open => "{".to_string(),
            Token::Close => "}".to_string(),
            Token::Comma => ",".to_string(),
            Token::Colon => ":".to_string(),
        };
        let there: String = chars[start..start + written.chars().count()].iter().collect();
        assert_eq!(there, written);
    }
}

#[test]
fn errors_show_where_their_token_begins() {
    let text = "a.{X  Y}";
    let error = parse_use_tree(text).unwrap_err();
    assert_eq!(error, SyntaxError { kind: SyntaxErrorKind::ExpectedSeparator, at: 4 });
    assert_eq!(error_offset(text, &error), 6);
    let text = "é.{X, ";
    let error = parse_use_tree(text).unwrap_err();
    assert_eq!(error, SyntaxError { kind: SyntaxErrorKind::ExpectedTree, at: 5 });
    assert_eq!(error_offset(text, &error), 6);
    let error = parse_use_tree("").unwrap_err();
    assert_eq!(error_offset("", &error), 0);
}
