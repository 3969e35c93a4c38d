//! The declaration of an import: the dependencies, and the types to take.

use crate::selector::{
    selector_of, syntaxes_of, use_tree_to_namespace_types, NamespaceTypes, SelectorError,
    SelectorView, Syntax, UseTree,
};
use crate::text::strings_view;
use crate::syntax::{
    is_colon_at, is_dot_at, is_word_at, lex, parse_single, parse_trees, parse_trees_at,
    parse_use_tree, token_is, token_is_word, tokenize, tokens_view, SyntaxError,
    SyntaxErrorKind, Token, TokenView,
};
use vstd::prelude::*;
use vstd::string::*;

verus! {

/// A declared dependency.
#[derive(Debug, Clone, PartialEq, Eq)]
pub enum PackageDependency {
    /// The metadata that comes with the operating system.
    Os,
    /// The metadata of a package, by the name of the package.
    Nuget(String),
}

/// What a `PackageDependency` stands for.
pub enum PackageView {
    Os,
    Nuget(Seq<char>),
}

impl View for PackageDependency {
    type V = PackageView;

    open spec fn view(&self) -> PackageView {
        match self {
            PackageDependency::Os => PackageView::Os,
            PackageDependency::Nuget(name) => PackageView::Nuget(name@),
        }
    }
}

/// What a list of dependencies stands for.
pub open spec fn packages_view(packages: Seq<PackageDependency>) -> Seq<PackageView> {
    Seq::new(packages.len(), |i: int| packages[i]@)
}

/// A declaration as it is written: the dependencies, whether the
/// foundation namespaces are generated too, and the paths of the types.
#[derive(Debug, PartialEq, Eq)]
pub struct Declaration {
    pub dependencies: Vec<PackageDependency>,
    pub foundation: bool,
    pub types: Vec<UseTree>,
}

/// What a `Declaration` stands for.
pub struct DeclarationSyntax {
    pub dependencies: Seq<PackageView>,
    pub foundation: bool,
    pub types: Seq<Syntax>,
}

impl View for Declaration {
    type V = DeclarationSyntax;

    open spec fn view(&self) -> DeclarationSyntax {
        DeclarationSyntax {
            dependencies: packages_view(self.dependencies@),
            foundation: self.foundation,
            types: syntaxes_of(self.types@),
        }
    }
}

/// The name of a package, and the position of the first token behind it.
pub struct ParsedName {
    pub name: Seq<char>,
    pub next: int,
}

/// The dependencies, and the position of the first token behind them.
pub struct ParsedPackages {
    pub packages: Seq<PackageView>,
    pub next: int,
}

/// The name of a package whose first words make `name`, read on from
/// token `pos`: as long as a dot and a word follow, they belong to the
/// name.
pub open spec fn package_name(tokens: Seq<TokenView>, pos: int, name: Seq<char>) -> ParsedName
    decreases tokens.len() - pos,
{
    if 0 <= pos && token_is(tokens, pos, TokenView::Dot) && token_is_word(tokens, pos + 1) {
        package_name(tokens, pos + 2, name.push('.') + tokens[pos + 1]->Ident_0)
    } else {
        ParsedName { name, next: pos }
    }
}

/// The dependencies from token `pos` on: as many as stand there, each
/// the word `os`, or the word `nuget`, a colon and the name of a package.
pub open spec fn parse_packages(tokens: Seq<TokenView>, pos: int) -> Result<
    ParsedPackages,
    SyntaxError,
>
    decreases tokens.len() - pos,
{
    if pos < 0 {
        Ok(ParsedPackages { packages: Seq::empty(), next: pos })
    } else if token_is(tokens, pos, TokenView::Ident("os"@)) {
        match parse_packages(tokens, pos + 1) {
            Ok(rest) => Ok(
                ParsedPackages { packages: seq![PackageView::Os] + rest.packages, next: rest.next },
            ),
            Err(error) => Err(error),
        }
    } else if token_is(tokens, pos, TokenView::Ident("nuget"@)) && token_is(
        tokens,
        pos + 1,
        TokenView::Colon,
    ) {
        if token_is_word(tokens, pos + 2) {
            let named = package_name(tokens, pos + 3, tokens[pos + 2]->Ident_0);
            // The test always holds (`lemma_package_name_bounds`); it is what
            // lets the definition end.
            if pos < named.next <= tokens.len() {
                match parse_packages(tokens, named.next) {
                    Ok(rest) => Ok(
                        ParsedPackages {
                            packages: seq![PackageView::Nuget(named.name)] + rest.packages,
                            next: rest.next,
                        },
                    ),
                    Err(error) => Err(error),
                }
            } else {
                Ok(
                    ParsedPackages {
                        packages: seq![PackageView::Nuget(named.name)],
                        next: named.next,
                    },
                )
            }
        } else {
            Err(SyntaxError { kind: SyntaxErrorKind::ExpectedPackage, at: (pos + 2) as usize })
        }
    } else {
        Ok(ParsedPackages { packages: Seq::empty(), next: pos })
    }
}

/// The declaration that a list of tokens is: the word `dependencies`, one
/// dependency or more, the word `types`, the word `foundation` or not,
/// and one path or more.
pub open spec fn parse_declaration(tokens: Seq<TokenView>) -> Result<
    DeclarationSyntax,
    SyntaxError,
> {
    if !token_is(tokens, 0, TokenView::Ident("dependencies"@)) {
        Err(SyntaxError { kind: SyntaxErrorKind::ExpectedDependencies, at: 0 })
    } else {
        match parse_packages(tokens, 1) {
            Err(error) => Err(error),
            Ok(found) => if found.packages.len() == 0 {
                Err(
                    SyntaxError {
                        kind: SyntaxErrorKind::ExpectedDependency,
                        at: found.next as usize,
                    },
                )
            } else if !token_is(tokens, found.next, TokenView::Ident("types"@)) {
                Err(SyntaxError { kind: SyntaxErrorKind::ExpectedTypes, at: found.next as usize })
            } else {
                let foundation = token_is(
                    tokens,
                    found.next + 1,
                    TokenView::Ident("foundation"@),
                );
                let first = if foundation {
                    found.next + 2
                } else {
                    found.next + 1
                };
                match parse_trees(tokens, first) {
                    Err(error) => Err(error),
                    Ok(types) => if types.len() == 0 {
                        Err(SyntaxError { kind: SyntaxErrorKind::Empty, at: first as usize })
                    } else {
                        Ok(DeclarationSyntax { dependencies: found.packages, foundation, types })
                    },
                }
            },
        }
    }
}

/// The name of a package never ends before the position that it is read
/// on from, nor behind the tokens.
pub proof fn lemma_package_name_bounds(tokens: Seq<TokenView>, pos: int, name: Seq<char>)
    requires
        0 <= pos <= tokens.len(),
    ensures
        pos <= package_name(tokens, pos, name).next <= tokens.len(),
    decreases tokens.len() - pos,
{
    if token_is(tokens, pos, TokenView::Dot) && token_is_word(tokens, pos + 1) {
        lemma_package_name_bounds(tokens, pos + 2, name.push('.') + tokens[pos + 1]->Ident_0);
    }
}

/// Reads on the name of a package from token `pos`.
fn package_name_at(tokens: &Vec<Token>, pos: usize, name: String) -> (found: (String, usize))
    requires
        pos <= tokens@.len(),
    ensures
        found.0@ == package_name(tokens_view(tokens@), pos as int, name@).name,
        found.1 == package_name(tokens_view(tokens@), pos as int, name@).next,
        pos <= found.1 <= tokens@.len(),
    decreases tokens@.len() - pos,
{
    let ghost view = tokens_view(tokens@);
    if pos < tokens.len() && is_dot_at(tokens, pos) && pos + 1 < tokens.len() {
        assert(view[pos + 1] == tokens@[pos + 1]@);
        match &tokens[pos + 1] {
            Token::Ident(word) => {
                let mut longer = name;
                longer.push('.');
                longer.append(word.as_str());
                package_name_at(tokens, pos + 2, longer)
            },
            _ => (name, pos),
        }
    } else {
        (name, pos)
    }
}

/// Parses the dependencies from token `pos` on.
fn parse_packages_at(tokens: &Vec<Token>, pos: usize) -> (result: Result<
    (Vec<PackageDependency>, usize),
    SyntaxError,
>)
    requires
        pos <= tokens@.len(),
    ensures
        match result {
            Ok(found) => parse_packages(tokens_view(tokens@), pos as int) matches Ok(parsed)
                && parsed.packages == packages_view(found.0@) && parsed.next == found.1 && pos
                <= found.1 <= tokens@.len(),
            Err(error) => parse_packages(tokens_view(tokens@), pos as int) == Err::<
                ParsedPackages,
                SyntaxError,
            >(error),
        },
    decreases tokens@.len() - pos,
{
    let ghost view = tokens_view(tokens@);
    if pos >= tokens.len() {
        let packages: Vec<PackageDependency> = Vec::new();
        assert(packages_view(packages@) =~= Seq::<PackageView>::empty());
        return Ok((packages, pos));
    }
    if is_word_at(tokens, pos, "os") {
        match parse_packages_at(tokens, pos + 1) {
            Ok((rest, next)) => {
                let mut packages = rest;
                let ghost others = packages_view(packages@);
                packages.insert(0, PackageDependency::Os);
                assert(packages_view(packages@) =~= seq![PackageView::Os] + others);
                Ok((packages, next))
            },
            Err(error) => Err(error),
        }
    } else if is_word_at(tokens, pos, "nuget") && is_colon_at(tokens, pos + 1) {
        if pos + 2 < tokens.len() {
            assert(view[pos + 2] == tokens@[pos + 2]@);
            match &tokens[pos + 2] {
                Token::Ident(word) => {
                    let (name, next) = package_name_at(tokens, pos + 3, word.clone());
                    match parse_packages_at(tokens, next) {
                        Ok((rest, end)) => {
                            let mut packages = rest;
                            let ghost others = packages_view(packages@);
                            let ghost head = PackageView::Nuget(name@);
                            packages.insert(0, PackageDependency::Nuget(name));
                            assert(packages_view(packages@) =~= seq![head] + others);
                            Ok((packages, end))
                        },
                        Err(error) => Err(error),
                    }
                },
                _ => Err(SyntaxError { kind: SyntaxErrorKind::ExpectedPackage, at: pos + 2 }),
            }
        } else {
            Err(SyntaxError { kind: SyntaxErrorKind::ExpectedPackage, at: pos + 2 })
        }
    } else {
        let packages: Vec<PackageDependency> = Vec::new();
        assert(packages_view(packages@) =~= Seq::<PackageView>::empty());
        Ok((packages, pos))
    }
}

/// Whether the outcome of parsing a declaration is the one that the
/// syntax prescribes.
pub open spec fn is_declaration(
    result: Result<Declaration, SyntaxError>,
    expected: Result<DeclarationSyntax, SyntaxError>,
) -> bool {
    match result {
        Ok(declaration) => expected == Ok::<DeclarationSyntax, SyntaxError>(declaration@),
        Err(error) => expected == Err::<DeclarationSyntax, SyntaxError>(error),
    }
}

/// Parses the tokens of a declaration.
pub fn parse_declaration_tokens(tokens: &Vec<Token>) -> (result: Result<Declaration, SyntaxError>)
    ensures
        is_declaration(result, parse_declaration(tokens_view(tokens@))),
{
    if !is_word_at(tokens, 0, "dependencies") {
        return Err(SyntaxError { kind: SyntaxErrorKind::ExpectedDependencies, at: 0 });
    }
    match parse_packages_at(tokens, 1) {
        Err(error) => Err(error),
        Ok((dependencies, next)) => {
            if dependencies.len() == 0 {
                return Err(SyntaxError { kind: SyntaxErrorKind::ExpectedDependency, at: next });
            }
            if next >= tokens.len() || !is_word_at(tokens, next, "types") {
                return Err(SyntaxError { kind: SyntaxErrorKind::ExpectedTypes, at: next });
            }
            let foundation = is_word_at(tokens, next + 1, "foundation");
            let first: usize = if foundation {
                next + 2
            } else {
                next + 1
            };
            match parse_trees_at(tokens, first) {
                Err(error) => Err(error),
                Ok(types) => {
                    if types.len() == 0 {
                        Err(SyntaxError { kind: SyntaxErrorKind::Empty, at: first })
                    } else {
                        Ok(Declaration { dependencies, foundation, types })
                    }
                },
            }
        },
    }
}

/// Parses the text of a declaration.
pub fn parse_declaration_text(text: &str) -> (result: Result<Declaration, SyntaxError>)
    ensures
        is_declaration(result, parse_declaration(lex(text@))),
{
    let tokens = tokenize(text);
    parse_declaration_tokens(&tokens)
}

impl Declaration {
    /// The names of the declared packages, in the order of the
    /// declaration.
    pub fn package_names(&self) -> (names: Vec<String>)
        ensures
            strings_view(names@) == nuget_names(self@.dependencies),
    {
        let mut names: Vec<String> = Vec::new();
        let mut i: usize = 0;
        assert(self@.dependencies.subrange(0, 0) =~= Seq::<PackageView>::empty());
        while i < self.dependencies.len()
            invariant
                i <= self.dependencies@.len(),
                strings_view(names@) == nuget_names(
                    self@.dependencies.subrange(0, i as int),
                ),
            decreases self.dependencies.len() - i,
        {
            let ghost before = strings_view(names@);
            proof {
                let next = self@.dependencies.subrange(0, i + 1);
                assert(next.drop_last() == self@.dependencies.subrange(0, i as int));
                assert(next.last() == self.dependencies@[i as int]@);
            }
            match &self.dependencies[i] {
                PackageDependency::Os => {},
                PackageDependency::Nuget(name) => {
                    names.push(name.clone());
                    assert(strings_view(names@) =~= before.push(name@));
                },
            }
            i += 1;
        }
        assert(self@.dependencies.subrange(0, i as int) == self@.dependencies);
        names
    }

    /// Whether the metadata of the operating system is among the
    /// dependencies.
    pub fn uses_os(&self) -> (found: bool)
        ensures
            found == self@.dependencies.contains(PackageView::Os),
    {
        let mut i: usize = 0;
        while i < self.dependencies.len()
            invariant
                i <= self.dependencies@.len(),
                forall|j: int| 0 <= j < i ==> self@.dependencies[j] != PackageView::Os,
            decreases self.dependencies.len() - i,
        {
            match &self.dependencies[i] {
                PackageDependency::Os => {
                    assert(self@.dependencies[i as int] == PackageView::Os);
                    return true;
                },
                _ => {},
            }
            i += 1;
        }
        false
    }
}

/// The names of the packages among a list of dependencies, in order.
pub open spec fn nuget_names(packages: Seq<PackageView>) -> Seq<Seq<char>>
    decreases packages.len(),
{
    if packages.len() == 0 {
        Seq::empty()
    } else {
        match packages.last() {
            PackageView::Os => nuget_names(packages.drop_last()),
            PackageView::Nuget(name) => nuget_names(packages.drop_last()).push(name),
        }
    }
}

/// Why a text is no selector.
#[derive(Debug, Clone, Copy, PartialEq, Eq, Structural)]
pub enum ParseError {
    /// The text is no tree.
    Syntax(SyntaxError),
    /// The text is a tree, but the tree is no selector.
    Selector(SelectorError),
}

/// The selector that a text is.
pub open spec fn selector_of_text(text: Seq<char>) -> Result<SelectorView, ParseError> {
    match parse_single(lex(text)) {
        Err(error) => Err(ParseError::Syntax(error)),
        Ok(tree) => match selector_of(tree) {
            Ok(selector) => Ok(selector),
            Err(error) => Err(ParseError::Selector(error)),
        },
    }
}

/// Parses one selector: a path of segments with dots between them, that
/// ends in `*`, in a group of names in braces, or in a single name.
pub fn parse_selector(text: &str) -> (result: Result<NamespaceTypes, ParseError>)
    ensures
        match result {
            Ok(selector) => selector_of_text(text@) == Ok::<SelectorView, ParseError>(selector@),
            Err(error) => selector_of_text(text@) == Err::<SelectorView, ParseError>(error),
        },
{
    match parse_use_tree(text) {
        Err(error) => Err(ParseError::Syntax(error)),
        Ok(tree) => match use_tree_to_namespace_types(&tree) {
            Ok(selector) => Ok(selector),
            Err(error) => Err(ParseError::Selector(error)),
        },
    }
}

} // verus!
