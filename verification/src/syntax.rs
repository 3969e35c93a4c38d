//! The selection syntax: from text to tokens, and from tokens to trees.

use crate::selector::{syntaxes_of, Syntax, UseTree};
use crate::text::{str_chars, str_eq};
use vstd::prelude::*;
use vstd::string::*;

verus! {

/// One token of the selection syntax.
#[derive(Debug, Clone, PartialEq, Eq)]
pub enum Token {
    /// A word: a run of characters that are neither space nor marks.
    Ident(String),
    /// `.`
    Dot,
    /// `*`
    Star,
    /// `{`
    Open,
    /// `}`
    Close,
    /// `,`
    Comma,
    /// `:`
    Colon,
}

/// What a `Token` stands for.
pub enum TokenView {
    Ident(Seq<char>),
    Dot,
    Star,
    Open,
    Close,
    Comma,
    Colon,
}

impl View for Token {
    type V = TokenView;

    open spec fn view(&self) -> TokenView {
        match self {
            Token::Ident(word) => TokenView::Ident(word@),
            Token::Dot => TokenView::Dot,
            Token::Star => TokenView::Star,
            Token::Open => TokenView::Open,
            Token::Close => TokenView::Close,
            Token::Comma => TokenView::Comma,
            Token::Colon => TokenView::Colon,
        }
    }
}

/// What a list of tokens stands for.
pub open spec fn tokens_view(tokens: Seq<Token>) -> Seq<TokenView> {
    Seq::new(tokens.len(), |i: int| tokens[i]@)
}

/// Whether a character is space between tokens.
pub open spec fn is_space(c: char) -> bool {
    c == ' ' || c == '\t' || c == '\n' || c == '\r'
}

/// The token that a mark makes by itself, if the character is a mark.
pub open spec fn mark_of(c: char) -> Option<TokenView> {
    if c == '.' {
        Some(TokenView::Dot)
    } else if c == '*' {
        Some(TokenView::Star)
    } else if c == '{' {
        Some(TokenView::Open)
    } else if c == '}' {
        Some(TokenView::Close)
    } else if c == ',' {
        Some(TokenView::Comma)
    } else if c == ':' {
        Some(TokenView::Colon)
    } else {
        None
    }
}

/// Whether a character belongs to a word.
pub open spec fn is_word_char(c: char) -> bool {
    !is_space(c) && mark_of(c) is None
}

/// The length of the word that a text begins with.
pub open spec fn word_len(text: Seq<char>) -> nat
    decreases text.len(),
{
    if text.len() == 0 || !is_word_char(text[0]) {
        0
    } else {
        1 + word_len(text.drop_first())
    }
}

/// The tokens of a text. Space separates tokens and is dropped, each mark
/// is a token, and every longest run of other characters is a word.
pub open spec fn lex(text: Seq<char>) -> Seq<TokenView>
    decreases text.len(),
{
    if text.len() == 0 {
        Seq::empty()
    } else if is_space(text[0]) {
        lex(text.drop_first())
    } else if mark_of(text[0]) is Some {
        seq![mark_of(text[0])->0] + lex(text.drop_first())
    } else {
        let n = 1 + word_len(text.drop_first());
        // A word is never longer than the text (`lemma_word_len_bound`); the
        // test is what lets the definition end.
        if n <= text.len() {
            seq![TokenView::Ident(text.subrange(0, n as int))] + lex(
                text.subrange(n as int, text.len() as int),
            )
        } else {
            Seq::empty()
        }
    }
}

/// A word is no longer than the text that it begins.
pub proof fn lemma_word_len_bound(text: Seq<char>)
    ensures
        word_len(text) <= text.len(),
    decreases text.len(),
{
    if text.len() > 0 && is_word_char(text[0]) {
        lemma_word_len_bound(text.drop_first());
    }
}

/// Whether a sequence of characters is a word: not empty, and without
/// space and marks.
pub open spec fn is_word(word: Seq<char>) -> bool {
    word.len() > 0 && forall|i: int| 0 <= i < word.len() ==> is_word_char(#[trigger] word[i])
}

/// Whether a token is a mark, or a word that is a word indeed.
pub open spec fn word_or_mark(token: TokenView) -> bool {
    token matches TokenView::Ident(word) ==> is_word(word)
}

/// Whether every word among the tokens is a word indeed.
pub open spec fn are_tokens(tokens: Seq<TokenView>) -> bool {
    forall|i: int| 0 <= i < tokens.len() ==> word_or_mark(#[trigger] tokens[i])
}

/// How a token is written.
pub open spec fn token_text(token: TokenView) -> Seq<char> {
    match token {
        TokenView::Ident(word) => word,
        TokenView::Dot => seq!['.'],
        TokenView::Star => seq!['*'],
        TokenView::Open => seq!['{'],
        TokenView::Close => seq!['}'],
        TokenView::Comma => seq![','],
        TokenView::Colon => seq![':'],
    }
}

/// A text that a list of tokens is written as: each token followed by one
/// space.
pub open spec fn written(tokens: Seq<TokenView>) -> Seq<char>
    decreases tokens.len(),
{
    if tokens.len() == 0 {
        Seq::empty()
    } else {
        token_text(tokens[0]) + seq![' '] + written(tokens.drop_first())
    }
}

/// A run of word characters that is followed by none is the word that a
/// text begins with.
proof fn lemma_word_len_of_word(word: Seq<char>, rest: Seq<char>)
    requires
        forall|i: int| 0 <= i < word.len() ==> is_word_char(#[trigger] word[i]),
        rest.len() == 0 || !is_word_char(rest[0]),
    ensures
        word_len(word + rest) == word.len(),
    decreases word.len(),
{
    let text = word + rest;
    if word.len() == 0 {
        assert(text =~= rest);
    } else {
        assert(text[0] == word[0]);
        assert(text.drop_first() =~= word.drop_first() + rest);
        assert forall|i: int| 0 <= i < word.drop_first().len() implies is_word_char(
            #[trigger] word.drop_first()[i],
        ) by {
            assert(word.drop_first()[i] == word[i + 1]);
        }
        lemma_word_len_of_word(word.drop_first(), rest);
    }
}

/// Every list of tokens can be written: the text that it is written as
/// has these tokens, and no others.
pub proof fn lemma_lex_written(tokens: Seq<TokenView>)
    requires
        are_tokens(tokens),
    ensures
        lex(written(tokens)) == tokens,
    decreases tokens.len(),
{
    if tokens.len() > 0 {
        let first = tokens[0];
        let rest = tokens.drop_first();
        let tail = seq![' '] + written(rest);
        let text = written(tokens);
        assert(text =~= token_text(first) + tail);
        assert(are_tokens(rest)) by {
            assert forall|i: int| 0 <= i < rest.len() implies word_or_mark(#[trigger] rest[i]) by {
                assert(rest[i] == tokens[i + 1]);
            }
        }
        lemma_lex_written(rest);
        assert(tail[0] == ' ');
        assert(tail.drop_first() =~= written(rest));
        assert(lex(tail) == rest);
        match first {
            TokenView::Ident(word) => {
                assert(is_word(word));
                assert(text[0] == word[0]);
                assert(text.drop_first() =~= word.drop_first() + tail);
                assert forall|i: int| 0 <= i < word.drop_first().len() implies is_word_char(
                    #[trigger] word.drop_first()[i],
                ) by {
                    assert(word.drop_first()[i] == word[i + 1]);
                }
                lemma_word_len_of_word(word.drop_first(), tail);
                let n = word.len() as int;
                assert(text.subrange(0, n) =~= word);
                assert(text.subrange(n, text.len() as int) =~= tail);
                assert(seq![first] + rest =~= tokens);
            },
            _ => {
                assert(text[0] == token_text(first)[0]);
                assert(text.drop_first() =~= tail);
                assert(mark_of(text[0]) == Some(first));
                assert(seq![first] + rest =~= tokens);
            },
        }
    } else {
        assert(lex(written(tokens)) =~= tokens);
    }
}

/// Every word among the tokens of a text is a word indeed.
pub proof fn lemma_lex_gives_tokens(text: Seq<char>)
    ensures
        are_tokens(lex(text)),
    decreases text.len(),
{
    if text.len() > 0 {
        if is_space(text[0]) || mark_of(text[0]) is Some {
            lemma_lex_gives_tokens(text.drop_first());
            if mark_of(text[0]) is Some {
                let rest = lex(text.drop_first());
                let all = seq![mark_of(text[0])->0] + rest;
                assert forall|i: int| 0 <= i < all.len() implies word_or_mark(
                    #[trigger] all[i],
                ) by {
                    if i > 0 {
                        assert(all[i] == rest[i - 1]);
                    }
                }
            }
        } else {
            lemma_word_len_bound(text.drop_first());
            let n = 1 + word_len(text.drop_first());
            let word = text.subrange(0, n as int);
            let after = text.subrange(n as int, text.len() as int);
            lemma_lex_gives_tokens(after);
            lemma_word_chars(text, n as int);
            let rest = lex(after);
            let all = seq![TokenView::Ident(word)] + rest;
            assert forall|i: int| 0 <= i < all.len() implies word_or_mark(#[trigger] all[i]) by {
                if i > 0 {
                    assert(all[i] == rest[i - 1]);
                }
            }
        }
    }
}

/// The word that a text begins with is made of word characters.
proof fn lemma_word_chars(text: Seq<char>, n: int)
    requires
        0 <= n <= word_len(text),
    ensures
        n <= text.len(),
        forall|i: int| 0 <= i < n ==> is_word_char(#[trigger] text.subrange(0, n)[i]),
    decreases n,
{
    lemma_word_len_bound(text);
    if n > 0 {
        lemma_word_chars(text.drop_first(), n - 1);
        assert forall|i: int| 0 <= i < n implies is_word_char(
            #[trigger] text.subrange(0, n)[i],
        ) by {
            if i > 0 {
                assert(text.subrange(0, n)[i] == text.drop_first().subrange(0, n - 1)[i - 1]);
            }
        }
    }
}

/// Whether a character is space between tokens.
pub fn is_space_char(c: char) -> (space: bool)
    ensures
        space == is_space(c),
{
    c == ' ' || c == '\t' || c == '\n' || c == '\r'
}

/// The token that a mark makes by itself, if the character is a mark.
pub fn mark_token(c: char) -> (token: Option<Token>)
    ensures
        match token {
            Some(mark) => mark_of(c) == Some(mark@),
            None => mark_of(c) is None,
        },
{
    if c == '.' {
        Some(Token::Dot)
    } else if c == '*' {
        Some(Token::Star)
    } else if c == '{' {
        Some(Token::Open)
    } else if c == '}' {
        Some(Token::Close)
    } else if c == ',' {
        Some(Token::Comma)
    } else if c == ':' {
        Some(Token::Colon)
    } else {
        None
    }
}

/// Where the tokens of a text begin, each as the number of characters
/// before it, where `base` characters stand before the text.
pub open spec fn token_starts(text: Seq<char>, base: int) -> Seq<int>
    decreases text.len(),
{
    if text.len() == 0 {
        Seq::empty()
    } else if is_space(text[0]) {
        token_starts(text.drop_first(), base + 1)
    } else if mark_of(text[0]) is Some {
        seq![base] + token_starts(text.drop_first(), base + 1)
    } else {
        let n = 1 + word_len(text.drop_first());
        // As in `lex`, the test always holds.
        if n <= text.len() {
            seq![base] + token_starts(text.subrange(n as int, text.len() as int), base + n)
        } else {
            Seq::empty()
        }
    }
}

/// What a list of positions stands for.
pub open spec fn positions_view(positions: Seq<usize>) -> Seq<int> {
    Seq::new(positions.len(), |i: int| positions[i] as int)
}

/// Every token of a text begins where `token_starts` says: there the
/// text holds what the token is written as.
pub proof fn lemma_token_starts(text: Seq<char>, base: int)
    ensures
        token_starts(text, base).len() == lex(text).len(),
        forall|k: int|
            0 <= k < lex(text).len() ==> {
                let start = #[trigger] token_starts(text, base)[k] - base;
                let written = token_text(lex(text)[k]);
                &&& 0 <= start
                &&& start + written.len() <= text.len()
                &&& text.subrange(start, start + written.len()) == written
            },
    decreases text.len(),
{
    if text.len() > 0 {
        let rest = text.drop_first();
        if is_space(text[0]) {
            lemma_token_starts(rest, base + 1);
            assert forall|k: int| 0 <= k < lex(text).len() implies {
                let start = #[trigger] token_starts(text, base)[k] - base;
                let written = token_text(lex(text)[k]);
                &&& 0 <= start
                &&& start + written.len() <= text.len()
                &&& text.subrange(start, start + written.len()) == written
            } by {
                let inner = token_starts(rest, base + 1)[k] - (base + 1);
                let written = token_text(lex(rest)[k]);
                assert(text.subrange(inner + 1, inner + 1 + written.len()) =~= rest.subrange(
                    inner,
                    inner + written.len(),
                ));
            }
        } else if mark_of(text[0]) is Some {
            lemma_token_starts(rest, base + 1);
            let tokens = lex(text);
            let starts = token_starts(text, base);
            assert forall|k: int| 0 <= k < tokens.len() implies {
                let start = #[trigger] starts[k] - base;
                let written = token_text(tokens[k]);
                &&& 0 <= start
                &&& start + written.len() <= text.len()
                &&& text.subrange(start, start + written.len()) == written
            } by {
                if k == 0 {
                    assert(text.subrange(0, 1) =~= token_text(tokens[0]));
                } else {
                    assert(tokens[k] == lex(rest)[k - 1]);
                    assert(starts[k] == token_starts(rest, base + 1)[k - 1]);
                    let inner = token_starts(rest, base + 1)[k - 1] - (base + 1);
                    let written = token_text(lex(rest)[k - 1]);
                    assert(text.subrange(inner + 1, inner + 1 + written.len()) =~= rest.subrange(
                        inner,
                        inner + written.len(),
                    ));
                }
            }
        } else {
            lemma_word_len_bound(rest);
            let n = (1 + word_len(rest)) as int;
            let after = text.subrange(n, text.len() as int);
            lemma_token_starts(after, base + n);
            let tokens = lex(text);
            let starts = token_starts(text, base);
            assert forall|k: int| 0 <= k < tokens.len() implies {
                let start = #[trigger] starts[k] - base;
                let written = token_text(tokens[k]);
                &&& 0 <= start
                &&& start + written.len() <= text.len()
                &&& text.subrange(start, start + written.len()) == written
            } by {
                if k > 0 {
                    assert(tokens[k] == lex(after)[k - 1]);
                    assert(starts[k] == token_starts(after, base + n)[k - 1]);
                    let inner = token_starts(after, base + n)[k - 1] - (base + n);
                    let written = token_text(lex(after)[k - 1]);
                    assert(text.subrange(inner + n, inner + n + written.len()) =~= after.subrange(
                        inner,
                        inner + written.len(),
                    ));
                }
            }
        }
    }
}

/// Splits a text into its tokens, and notes where each begins.
fn scan(text: &str) -> (found: (Vec<Token>, Vec<usize>))
    ensures
        tokens_view(found.0@) == lex(text@),
        positions_view(found.1@) == token_starts(text@, 0),
{
    let chars = str_chars(text);
    let n: usize = chars.len();
    let mut tokens: Vec<Token> = Vec::new();
    let mut starts: Vec<usize> = Vec::new();
    let mut i: usize = 0;
    assert(chars@.subrange(0, n as int) == chars@);
    assert(tokens_view(tokens@) + lex(chars@) == lex(chars@));
    assert(positions_view(starts@) + token_starts(chars@, 0) == token_starts(chars@, 0));
    while i < n
        invariant
            n == chars@.len(),
            i <= n,
            tokens_view(tokens@) + lex(chars@.subrange(i as int, n as int)) == lex(chars@),
            positions_view(starts@) + token_starts(chars@.subrange(i as int, n as int), i as int)
                == token_starts(chars@, 0),
        decreases n - i,
    {
        let ghost rest = chars@.subrange(i as int, n as int);
        let ghost before = tokens_view(tokens@);
        let ghost begun = positions_view(starts@);
        let c = chars[i];
        assert(rest[0] == c);
        assert(rest.drop_first() == chars@.subrange(i + 1, n as int));
        if is_space_char(c) {
            i += 1;
        } else {
            match mark_token(c) {
                Some(mark) => {
                    let ghost added = mark@;
                    tokens.push(mark);
                    starts.push(i);
                    assert(tokens_view(tokens@) == before + seq![added]);
                    assert(positions_view(starts@) == begun + seq![i as int]);
                    assert(before + (seq![added] + lex(rest.drop_first())) == (before
                        + seq![added]) + lex(rest.drop_first()));
                    assert(begun + (seq![i as int] + token_starts(rest.drop_first(), i + 1)) == (
                    begun + seq![i as int]) + token_starts(rest.drop_first(), i + 1));
                    i += 1;
                },
                None => {
                    let mut word = String::new();
                    word.push(c);
                    let mut j: usize = i + 1;
                    while j < n && !is_space_char(chars[j]) && mark_token(chars[j]).is_none()
                        invariant
                            n == chars@.len(),
                            i < j <= n,
                            word@ == chars@.subrange(i as int, j as int),
                            word_len(chars@.subrange(i + 1, n as int)) == (j - i - 1) + word_len(
                                chars@.subrange(j as int, n as int),
                            ),
                        decreases n - j,
                    {
                        proof {
                            let here = chars@.subrange(j as int, n as int);
                            assert(here[0] == chars@[j as int]);
                            assert(here.drop_first() == chars@.subrange(j + 1, n as int));
                            assert(chars@.subrange(i as int, j + 1) == chars@.subrange(
                                i as int,
                                j as int,
                            ).push(chars@[j as int]));
                        }
                        word.push(chars[j]);
                        j += 1;
                    }
                    proof {
                        let here = chars@.subrange(j as int, n as int);
                        if j < n {
                            assert(here[0] == chars@[j as int]);
                        }
                        assert(word_len(here) == 0);
                        let len = 1 + word_len(rest.drop_first());
                        assert(len == j - i);
                        assert(rest.subrange(0, len as int) == chars@.subrange(i as int, j as int));
                        assert(rest.subrange(len as int, rest.len() as int) == here);
                    }
                    let ghost added = TokenView::Ident(word@);
                    let ghost after = chars@.subrange(j as int, n as int);
                    tokens.push(Token::Ident(word));
                    starts.push(i);
                    assert(tokens_view(tokens@) == before + seq![added]);
                    assert(positions_view(starts@) == begun + seq![i as int]);
                    assert(before + (seq![added] + lex(after)) == (before + seq![added]) + lex(
                        after,
                    ));
                    assert(begun + (seq![i as int] + token_starts(after, j as int)) == (begun
                        + seq![i as int]) + token_starts(after, j as int));
                    i = j;
                },
            }
        }
    }
    assert(chars@.subrange(n as int, n as int) == Seq::<char>::empty());
    assert(tokens_view(tokens@) + Seq::<TokenView>::empty() == tokens_view(tokens@));
    assert(positions_view(starts@) + Seq::<int>::empty() == positions_view(starts@));
    (tokens, starts)
}

/// Splits a text into its tokens.
pub fn tokenize(text: &str) -> (tokens: Vec<Token>)
    ensures
        tokens_view(tokens@) == lex(text@),
{
    scan(text).0
}

/// Where the tokens of a text begin: for each token the number of
/// characters before it.
pub fn token_offsets(text: &str) -> (starts: Vec<usize>)
    ensures
        positions_view(starts@) == token_starts(text@, 0),
{
    scan(text).1
}

/// Why a list of tokens is no tree.
#[derive(Debug, Clone, Copy, PartialEq, Eq, Structural)]
pub enum SyntaxErrorKind {
    /// A tree has to begin here: with a word, `*` or `{`.
    ExpectedTree,
    /// A word has to follow `as`.
    ExpectedName,
    /// A group goes on with `,` or ends with `}`.
    ExpectedSeparator,
    /// The text begins with no tree at all.
    Empty,
    /// The text goes on behind the one tree that was asked for.
    TrailingTokens,
    /// A declaration begins with the word `dependencies`.
    ExpectedDependencies,
    /// A dependency, `os` or `nuget:` and a package, has to stand here.
    ExpectedDependency,
    /// The name of a package has to follow `nuget:`.
    ExpectedPackage,
    /// The word `types` has to follow the dependencies.
    ExpectedTypes,
}

/// A list of tokens that is no tree: why, and the position of the token
/// at which this shows; the number of tokens where they end too early.
#[derive(Debug, Clone, Copy, PartialEq, Eq, Structural)]
pub struct SyntaxError {
    pub kind: SyntaxErrorKind,
    pub at: usize,
}

impl SyntaxError {
    /// The text of the diagnostic.
    pub fn message(&self) -> (text: &'static str)
        ensures
            text@ == match self.kind {
                SyntaxErrorKind::ExpectedTree => "expected a path, `*` or `{`"@,
                SyntaxErrorKind::ExpectedName => "expected a name after `as`"@,
                SyntaxErrorKind::ExpectedSeparator => "expected `,` or `}`"@,
                SyntaxErrorKind::Empty => "expected at least one path"@,
                SyntaxErrorKind::TrailingTokens => "unexpected token after the path"@,
                SyntaxErrorKind::ExpectedDependencies => "expected `dependencies`"@,
                SyntaxErrorKind::ExpectedDependency => "expected `os` or `nuget:`"@,
                SyntaxErrorKind::ExpectedPackage => "expected the name of a package"@,
                SyntaxErrorKind::ExpectedTypes => "expected `types`"@,
            },
    {
        match self.kind {
            SyntaxErrorKind::ExpectedTree => "expected a path, `*` or `{`",
            SyntaxErrorKind::ExpectedName => "expected a name after `as`",
            SyntaxErrorKind::ExpectedSeparator => "expected `,` or `}`",
            SyntaxErrorKind::Empty => "expected at least one path",
            SyntaxErrorKind::TrailingTokens => "unexpected token after the path",
            SyntaxErrorKind::ExpectedDependencies => "expected `dependencies`",
            SyntaxErrorKind::ExpectedDependency => "expected `os` or `nuget:`",
            SyntaxErrorKind::ExpectedPackage => "expected the name of a package",
            SyntaxErrorKind::ExpectedTypes => "expected `types`",
        }
    }
}

/// Where in a text an error shows, as the number of characters before it:
/// where the token of the error begins, or the end of the text where the
/// tokens end too early.
pub fn error_offset(text: &str, error: &SyntaxError) -> (offset: usize)
    ensures
        offset == if error.at < token_starts(text@, 0).len() {
            token_starts(text@, 0)[error.at as int]
        } else {
            text@.len() as int
        },
{
    let starts = token_offsets(text);
    assert(positions_view(starts@).len() == starts@.len());
    if error.at < starts.len() {
        assert(positions_view(starts@)[error.at as int] == starts@[error.at as int]);
        starts[error.at]
    } else {
        text.unicode_len()
    }
}

/// A tree, and the position of the first token behind it.
pub struct Parsed {
    pub tree: Syntax,
    pub next: int,
}

/// The members of a group, and the position of the first token behind the
/// closing brace. Also: trees in a row, and the position behind them.
pub struct ParsedList {
    pub items: Seq<Syntax>,
    pub next: int,
}

/// Whether the token at `pos` is this one.
pub open spec fn token_is(tokens: Seq<TokenView>, pos: int, token: TokenView) -> bool {
    0 <= pos < tokens.len() && tokens[pos] == token
}

/// Whether the token at `pos` is a word.
pub open spec fn token_is_word(tokens: Seq<TokenView>, pos: int) -> bool {
    0 <= pos < tokens.len() && tokens[pos] is Ident
}

/// The tree that begins at token `pos`. A word followed by a dot begins a
/// path; a word followed by `as` and a word is a renamed name; any other
/// word is a name; `*` is the wildcard; `{` begins a group.
pub open spec fn parse_tree(tokens: Seq<TokenView>, pos: int) -> Result<Parsed, SyntaxError>
    decreases tokens.len() - pos, 0int,
{
    if pos < 0 || pos >= tokens.len() {
        Err(SyntaxError { kind: SyntaxErrorKind::ExpectedTree, at: pos as usize })
    } else {
        match tokens[pos] {
            TokenView::Star => Ok(Parsed { tree: Syntax::Glob, next: pos + 1 }),
            TokenView::Open => match parse_items(tokens, pos + 1) {
                Ok(list) => Ok(
                    Parsed { tree: Syntax::Group { items: list.items }, next: list.next },
                ),
                Err(error) => Err(error),
            },
            TokenView::Ident(word) => if token_is(tokens, pos + 1, TokenView::Dot) {
                match parse_tree(tokens, pos + 2) {
                    Ok(rest) => Ok(
                        Parsed {
                            tree: Syntax::Path { ident: word, tree: Box::new(rest.tree) },
                            next: rest.next,
                        },
                    ),
                    Err(error) => Err(error),
                }
            } else if token_is(tokens, pos + 1, TokenView::Ident("as"@)) {
                if token_is_word(tokens, pos + 2) {
                    Ok(
                        Parsed {
                            tree: Syntax::Rename { ident: word, rename: tokens[pos + 2]->Ident_0 },
                            next: pos + 3,
                        },
                    )
                } else {
                    Err(SyntaxError { kind: SyntaxErrorKind::ExpectedName, at: (pos + 2) as usize })
                }
            } else {
                Ok(Parsed { tree: Syntax::Name { ident: word }, next: pos + 1 })
            },
            _ => Err(SyntaxError { kind: SyntaxErrorKind::ExpectedTree, at: pos as usize }),
        }
    }
}

/// The members of a group from token `pos` on, up to the closing brace:
/// one tree or more, with a comma between each two.
pub open spec fn parse_items(tokens: Seq<TokenView>, pos: int) -> Result<ParsedList, SyntaxError>
    decreases tokens.len() - pos, 1int,
{
    match parse_tree(tokens, pos) {
        Err(error) => Err(error),
        // A tree takes one token at least (`lemma_parse_advances`), so that
        // `first.next > pos` always holds; it is what lets the definition end.
        Ok(first) => if token_is(tokens, first.next, TokenView::Comma) && first.next > pos {
            match parse_items(tokens, first.next + 1) {
                Ok(rest) => Ok(
                    ParsedList { items: seq![first.tree] + rest.items, next: rest.next },
                ),
                Err(error) => Err(error),
            }
        } else if token_is(tokens, first.next, TokenView::Close) {
            Ok(ParsedList { items: seq![first.tree], next: first.next + 1 })
        } else {
            Err(SyntaxError { kind: SyntaxErrorKind::ExpectedSeparator, at: first.next as usize })
        },
    }
}

/// The trees that stand in a row from token `pos` to the end of the
/// tokens.
pub open spec fn parse_trees(tokens: Seq<TokenView>, pos: int) -> Result<Seq<Syntax>, SyntaxError>
    decreases tokens.len() - pos,
{
    if pos < 0 || pos >= tokens.len() {
        Ok(Seq::empty())
    } else {
        match parse_tree(tokens, pos) {
            Err(error) => Err(error),
            // The test always holds (`lemma_parse_advances`); it is what lets
            // the definition end.
            Ok(first) => if pos < first.next <= tokens.len() {
                match parse_trees(tokens, first.next) {
                    Ok(rest) => Ok(seq![first.tree] + rest),
                    Err(error) => Err(error),
                }
            } else {
                Ok(seq![first.tree])
            },
        }
    }
}

/// A tree that is parsed takes at least one token, and none beyond the
/// end.
pub proof fn lemma_parse_advances(tokens: Seq<TokenView>, pos: int)
    requires
        0 <= pos,
    ensures
        parse_tree(tokens, pos) matches Ok(parsed) ==> pos < parsed.next <= tokens.len(),
        parse_items(tokens, pos) matches Ok(list) ==> pos < list.next <= tokens.len()
            && list.items.len() > 0,
    decreases tokens.len() - pos, 2int,
{
    if pos < tokens.len() {
        match tokens[pos] {
            TokenView::Open => {
                lemma_parse_advances(tokens, pos + 1);
            },
            TokenView::Ident(word) => {
                if token_is(tokens, pos + 1, TokenView::Dot) {
                    lemma_parse_advances(tokens, pos + 2);
                }
            },
            _ => {},
        }
        match parse_tree(tokens, pos) {
            Ok(first) => {
                if token_is(tokens, first.next, TokenView::Comma) {
                    lemma_parse_advances(tokens, first.next + 1);
                }
            },
            Err(_) => {},
        }
    }
}

/// The tokens that a tree is written with.
pub open spec fn tokens_of(tree: Syntax) -> Seq<TokenView>
    decreases tree,
{
    match tree {
        Syntax::Path { ident, tree } => seq![TokenView::Ident(ident), TokenView::Dot] + tokens_of(
            *tree,
        ),
        Syntax::Name { ident } => seq![TokenView::Ident(ident)],
        Syntax::Rename { ident, rename } => seq![
            TokenView::Ident(ident),
            TokenView::Ident("as"@),
            TokenView::Ident(rename),
        ],
        Syntax::Glob => seq![TokenView::Star],
        Syntax::Group { items } => seq![TokenView::Open] + tokens_of_items(items)
            + seq![TokenView::Close],
    }
}

/// The tokens that the members of a group are written with: those of
/// each member, with a comma between each two.
pub open spec fn tokens_of_items(items: Seq<Syntax>) -> Seq<TokenView>
    decreases items,
{
    if items.len() == 0 {
        Seq::empty()
    } else if items.len() == 1 {
        tokens_of(items[0])
    } else {
        tokens_of(items[0]) + seq![TokenView::Comma] + tokens_of_items(items.drop_first())
    }
}

/// A tree that is parsed is written with exactly the tokens that were
/// taken for it.
pub proof fn lemma_parse_sound(tokens: Seq<TokenView>, pos: int)
    requires
        0 <= pos,
    ensures
        parse_tree(tokens, pos) matches Ok(parsed) ==> tokens.subrange(pos, parsed.next)
            == tokens_of(parsed.tree),
        parse_items(tokens, pos) matches Ok(list) ==> tokens.subrange(pos, list.next)
            == tokens_of_items(list.items) + seq![TokenView::Close],
    decreases tokens.len() - pos, 2int,
{
    lemma_parse_advances(tokens, pos);
    if pos < tokens.len() {
        match tokens[pos] {
            TokenView::Open => {
                lemma_parse_sound(tokens, pos + 1);
                lemma_parse_advances(tokens, pos + 1);
                match parse_items(tokens, pos + 1) {
                    Ok(list) => {
                        assert(tokens.subrange(pos, list.next) == seq![TokenView::Open]
                            + tokens.subrange(pos + 1, list.next));
                        assert(seq![TokenView::Open] + (tokens_of_items(list.items)
                            + seq![TokenView::Close]) == seq![TokenView::Open] + tokens_of_items(
                            list.items,
                        ) + seq![TokenView::Close]);
                    },
                    Err(_) => {},
                }
            },
            TokenView::Ident(word) => {
                if token_is(tokens, pos + 1, TokenView::Dot) {
                    lemma_parse_sound(tokens, pos + 2);
                    lemma_parse_advances(tokens, pos + 2);
                    match parse_tree(tokens, pos + 2) {
                        Ok(rest) => {
                            assert(tokens.subrange(pos, rest.next) == seq![
                                TokenView::Ident(word),
                                TokenView::Dot,
                            ] + tokens.subrange(pos + 2, rest.next));
                        },
                        Err(_) => {},
                    }
                } else if token_is(tokens, pos + 1, TokenView::Ident("as"@)) {
                    if token_is_word(tokens, pos + 2) {
                        assert(tokens.subrange(pos, pos + 3) == seq![
                            TokenView::Ident(word),
                            TokenView::Ident("as"@),
                            TokenView::Ident(tokens[pos + 2]->Ident_0),
                        ]);
                    }
                } else {
                    assert(tokens.subrange(pos, pos + 1) == seq![TokenView::Ident(word)]);
                }
            },
            TokenView::Star => {
                assert(tokens.subrange(pos, pos + 1) == seq![TokenView::Star]);
            },
            _ => {},
        }
        match parse_tree(tokens, pos) {
            Ok(first) => {
                if token_is(tokens, first.next, TokenView::Comma) {
                    lemma_parse_sound(tokens, first.next + 1);
                    lemma_parse_advances(tokens, first.next + 1);
                    match parse_items(tokens, first.next + 1) {
                        Ok(rest) => {
                            let items = seq![first.tree] + rest.items;
                            assert(items[0] == first.tree);
                            assert(items.drop_first() == rest.items);
                            assert(tokens.subrange(pos, rest.next) == tokens.subrange(
                                pos,
                                first.next,
                            ) + seq![TokenView::Comma] + tokens.subrange(
                                first.next + 1,
                                rest.next,
                            ));
                            assert(tokens_of(first.tree) + seq![TokenView::Comma] + (
                            tokens_of_items(rest.items) + seq![TokenView::Close]) == tokens_of(
                                first.tree,
                            ) + seq![TokenView::Comma] + tokens_of_items(rest.items)
                                + seq![TokenView::Close]);
                        },
                        Err(_) => {},
                    }
                } else if token_is(tokens, first.next, TokenView::Close) {
                    let items = seq![first.tree];
                    assert(items[0] == first.tree);
                    assert(tokens.subrange(pos, first.next + 1) == tokens.subrange(
                        pos,
                        first.next,
                    ) + seq![TokenView::Close]);
                }
            },
            Err(_) => {},
        }
    }
}

/// Whether no group of a tree is empty.
pub open spec fn has_members(tree: Syntax) -> bool
    decreases tree,
{
    match tree {
        Syntax::Path { ident, tree } => has_members(*tree),
        Syntax::Group { items } => items.len() > 0 && forall|i: int|
            0 <= i < items.len() ==> has_members(#[trigger] items[i]),
        _ => true,
    }
}

/// Whether the token at `pos`, if there is one, leaves a name before it
/// as it is: a dot would make the name a segment, and `as` would rename
/// it.
pub open spec fn ends_name(tokens: Seq<TokenView>, pos: int) -> bool {
    !token_is(tokens, pos, TokenView::Dot) && !token_is(tokens, pos, TokenView::Ident("as"@))
}

/// Every tree is written with one token at least.
pub proof fn lemma_tokens_of_nonempty(tree: Syntax)
    ensures
        tokens_of(tree).len() > 0,
{
}

/// No group of a parsed tree is empty.
pub proof fn lemma_parsed_has_members(tokens: Seq<TokenView>, pos: int)
    requires
        0 <= pos,
    ensures
        parse_tree(tokens, pos) matches Ok(parsed) ==> has_members(parsed.tree),
        parse_items(tokens, pos) matches Ok(list) ==> list.items.len() > 0 && forall|i: int|
            0 <= i < list.items.len() ==> has_members(#[trigger] list.items[i]),
    decreases tokens.len() - pos, 2int,
{
    lemma_parse_advances(tokens, pos);
    if pos < tokens.len() {
        match tokens[pos] {
            TokenView::Open => {
                lemma_parsed_has_members(tokens, pos + 1);
            },
            TokenView::Ident(word) => {
                if token_is(tokens, pos + 1, TokenView::Dot) {
                    lemma_parsed_has_members(tokens, pos + 2);
                }
            },
            _ => {},
        }
        match parse_tree(tokens, pos) {
            Ok(first) => {
                if token_is(tokens, first.next, TokenView::Comma) {
                    lemma_parsed_has_members(tokens, first.next + 1);
                }
            },
            Err(_) => {},
        }
    }
}

/// Where two lists of tokens stand one behind the other, each stands in
/// its place.
proof fn lemma_split(
    tokens: Seq<TokenView>,
    pos: int,
    a: Seq<TokenView>,
    b: Seq<TokenView>,
)
    requires
        0 <= pos,
        pos + a.len() + b.len() <= tokens.len(),
        tokens.subrange(pos, pos + a.len() + b.len()) == a + b,
    ensures
        tokens.subrange(pos, pos + a.len()) == a,
        tokens.subrange(pos + a.len(), pos + a.len() + b.len()) == b,
{
    let whole = tokens.subrange(pos, pos + a.len() + b.len());
    assert forall|i: int| 0 <= i < a.len() implies tokens[pos + i] == a[i] by {
        assert(whole[i] == (a + b)[i]);
    }
    assert forall|i: int| 0 <= i < b.len() implies tokens[pos + a.len() + i] == b[i] by {
        assert(whole[a.len() + i] == (a + b)[a.len() + i]);
    }
    assert(tokens.subrange(pos, pos + a.len()) =~= a);
    assert(tokens.subrange(pos + a.len(), pos + a.len() + b.len()) =~= b);
}

/// A tree without empty groups is parsed back from the tokens that it is
/// written with, wherever they stand, as long as the token behind them
/// leaves a name as it is.
pub proof fn lemma_parse_complete(tokens: Seq<TokenView>, pos: int, tree: Syntax)
    requires
        0 <= pos,
        has_members(tree),
        pos + tokens_of(tree).len() <= tokens.len(),
        tokens.subrange(pos, pos + tokens_of(tree).len()) == tokens_of(tree),
        ends_name(tokens, pos + tokens_of(tree).len()),
    ensures
        parse_tree(tokens, pos) == Ok::<Parsed, SyntaxError>(
            Parsed { tree, next: pos + tokens_of(tree).len() },
        ),
    decreases tree,
{
    let written = tokens_of(tree);
    let n = written.len() as int;
    assert(tokens[pos] == tokens.subrange(pos, pos + n)[0]);
    match tree {
        Syntax::Path { ident, tree: rest } => {
            let head = seq![TokenView::Ident(ident), TokenView::Dot];
            lemma_split(tokens, pos, head, tokens_of(*rest));
            assert(tokens[pos] == head[0]);
            assert(tokens[pos + 1] == tokens.subrange(pos, pos + 2)[1]);
            assert(tokens[pos + 1] == head[1]);
            lemma_parse_complete(tokens, pos + 2, *rest);
        },
        Syntax::Name { ident } => {},
        Syntax::Rename { ident, rename } => {
            assert(tokens[pos + 1] == tokens.subrange(pos, pos + n)[1]);
            assert(tokens[pos + 2] == tokens.subrange(pos, pos + n)[2]);
        },
        Syntax::Glob => {},
        Syntax::Group { items } => {
            let inner = tokens_of_items(items);
            let open = seq![TokenView::Open];
            let close = seq![TokenView::Close];
            assert(open + inner + close == open + (inner + close));
            lemma_split(tokens, pos, open, inner + close);
            lemma_parse_items_complete(tokens, pos + 1, items);
        },
    }
}

/// The members of a group are parsed back from the tokens that they are
/// written with, up to the closing brace.
pub proof fn lemma_parse_items_complete(tokens: Seq<TokenView>, pos: int, items: Seq<Syntax>)
    requires
        0 <= pos,
        items.len() > 0,
        forall|i: int| 0 <= i < items.len() ==> has_members(#[trigger] items[i]),
        pos + tokens_of_items(items).len() + 1 <= tokens.len(),
        tokens.subrange(pos, pos + tokens_of_items(items).len() + 1) == tokens_of_items(items)
            + seq![TokenView::Close],
    ensures
        parse_items(tokens, pos) == Ok::<ParsedList, SyntaxError>(
            ParsedList { items, next: pos + tokens_of_items(items).len() + 1 },
        ),
    decreases items,
{
    let first = items[0];
    let n = tokens_of(first).len() as int;
    let close = seq![TokenView::Close];
    lemma_tokens_of_nonempty(first);
    if items.len() == 1 {
        lemma_split(tokens, pos, tokens_of(first), close);
        assert(tokens[pos + n] == tokens.subrange(pos + n, pos + n + 1)[0]);
        lemma_parse_complete(tokens, pos, first);
        assert(seq![first] =~= items);
    } else {
        let rest = items.drop_first();
        let comma = seq![TokenView::Comma];
        let tail = tokens_of_items(rest) + close;
        assert(tokens_of(first) + comma + tokens_of_items(rest) + close == tokens_of(first) + (
        comma + tail));
        lemma_split(tokens, pos, tokens_of(first), comma + tail);
        lemma_split(tokens, pos + n, comma, tail);
        assert(tokens[pos + n] == tokens.subrange(pos + n, pos + n + 1)[0]);
        lemma_parse_complete(tokens, pos, first);
        assert forall|i: int| 0 <= i < rest.len() implies has_members(#[trigger] rest[i]) by {
            assert(rest[i] == items[i + 1]);
        }
        lemma_parse_items_complete(tokens, pos + n + 1, rest);
        assert(seq![first] + rest =~= items);
    }
}

/// A list of tokens is one tree exactly where it is what a tree without
/// empty groups is written with, and it is that tree.
pub proof fn lemma_single_tree_exact(tokens: Seq<TokenView>, tree: Syntax)
    ensures
        parse_single(tokens) == Ok::<Syntax, SyntaxError>(tree) <==> tokens == tokens_of(tree)
            && has_members(tree),
{
    if parse_single(tokens) == Ok::<Syntax, SyntaxError>(tree) {
        lemma_parse_sound(tokens, 0);
        lemma_parsed_has_members(tokens, 0);
        assert(tokens.subrange(0, tokens.len() as int) == tokens);
    }
    if tokens == tokens_of(tree) && has_members(tree) {
        assert(tokens.subrange(0, tokens.len() as int) == tokens);
        lemma_parse_complete(tokens, 0, tree);
    }
}

/// Whether a parse has the outcome that the syntax prescribes.
pub open spec fn is_parsed(
    result: Result<(UseTree, usize), SyntaxError>,
    expected: Result<Parsed, SyntaxError>,
) -> bool {
    match result {
        Ok(found) => expected matches Ok(parsed) && parsed.tree == found.0@ && parsed.next
            == found.1,
        Err(error) => expected == Err::<Parsed, SyntaxError>(error),
    }
}

/// Whether a parse of a list has the outcome that the syntax prescribes.
pub open spec fn is_parsed_list(
    result: Result<(Vec<UseTree>, usize), SyntaxError>,
    expected: Result<ParsedList, SyntaxError>,
) -> bool {
    match result {
        Ok(found) => expected matches Ok(list) && list.items == syntaxes_of(found.0@) && list.next
            == found.1,
        Err(error) => expected == Err::<ParsedList, SyntaxError>(error),
    }
}

/// Whether the token at `pos` is a dot.
pub(crate) fn is_dot_at(tokens: &Vec<Token>, pos: usize) -> (found: bool)
    ensures
        found == token_is(tokens_view(tokens@), pos as int, TokenView::Dot),
{
    if pos < tokens.len() {
        match &tokens[pos] {
            Token::Dot => true,
            _ => false,
        }
    } else {
        false
    }
}

/// Whether the token at `pos` is a comma.
fn is_comma_at(tokens: &Vec<Token>, pos: usize) -> (found: bool)
    ensures
        found == token_is(tokens_view(tokens@), pos as int, TokenView::Comma),
{
    if pos < tokens.len() {
        match &tokens[pos] {
            Token::Comma => true,
            _ => false,
        }
    } else {
        false
    }
}

/// Whether the token at `pos` is a closing brace.
fn is_close_at(tokens: &Vec<Token>, pos: usize) -> (found: bool)
    ensures
        found == token_is(tokens_view(tokens@), pos as int, TokenView::Close),
{
    if pos < tokens.len() {
        match &tokens[pos] {
            Token::Close => true,
            _ => false,
        }
    } else {
        false
    }
}

/// Whether the token at `pos` is a colon.
pub(crate) fn is_colon_at(tokens: &Vec<Token>, pos: usize) -> (found: bool)
    ensures
        found == token_is(tokens_view(tokens@), pos as int, TokenView::Colon),
{
    if pos < tokens.len() {
        match &tokens[pos] {
            Token::Colon => true,
            _ => false,
        }
    } else {
        false
    }
}

/// Whether the token at `pos` is the given word.
pub(crate) fn is_word_at(tokens: &Vec<Token>, pos: usize, word: &str) -> (found: bool)
    ensures
        found == token_is(tokens_view(tokens@), pos as int, TokenView::Ident(word@)),
{
    if pos < tokens.len() {
        match &tokens[pos] {
            Token::Ident(other) => str_eq(other.as_str(), word),
            _ => false,
        }
    } else {
        false
    }
}

/// Parses the tree that begins at token `pos`.
fn parse_tree_at(tokens: &Vec<Token>, pos: usize) -> (result: Result<(UseTree, usize), SyntaxError>)
    requires
        pos <= tokens@.len(),
    ensures
        is_parsed(result, parse_tree(tokens_view(tokens@), pos as int)),
        result matches Ok(found) ==> pos < found.1 <= tokens@.len(),
    decreases tokens@.len() - pos, 0int,
{
    let ghost view = tokens_view(tokens@);
    if pos >= tokens.len() {
        return Err(SyntaxError { kind: SyntaxErrorKind::ExpectedTree, at: pos });
    }
    assert(view[pos as int] == tokens@[pos as int]@);
    match &tokens[pos] {
        Token::Star => Ok((UseTree::Glob, pos + 1)),
        Token::Open => match parse_items_at(tokens, pos + 1) {
            Ok((items, next)) => {
                let tree = UseTree::Group { items };
                assert(tree@->Group_items =~= syntaxes_of(tree->Group_items@));
                Ok((tree, next))
            },
            Err(error) => Err(error),
        },
        Token::Ident(word) => {
            if is_dot_at(tokens, pos + 1) {
                match parse_tree_at(tokens, pos + 2) {
                    Ok((rest, next)) => Ok(
                        (UseTree::Path { ident: word.clone(), tree: Box::new(rest) }, next),
                    ),
                    Err(error) => Err(error),
                }
            } else if is_word_at(tokens, pos + 1, "as") {
                if pos + 2 < tokens.len() {
                    assert(view[pos + 2] == tokens@[pos + 2]@);
                    match &tokens[pos + 2] {
                        Token::Ident(rename) => Ok(
                            (
                                UseTree::Rename { ident: word.clone(), rename: rename.clone() },
                                pos + 3,
                            ),
                        ),
                        _ => Err(
                            SyntaxError { kind: SyntaxErrorKind::ExpectedName, at: pos + 2 },
                        ),
                    }
                } else {
                    Err(SyntaxError { kind: SyntaxErrorKind::ExpectedName, at: pos + 2 })
                }
            } else {
                Ok((UseTree::Name { ident: word.clone() }, pos + 1))
            }
        },
        _ => Err(SyntaxError { kind: SyntaxErrorKind::ExpectedTree, at: pos }),
    }
}

/// Parses the members of a group from token `pos` on, up to the closing
/// brace.
fn parse_items_at(tokens: &Vec<Token>, pos: usize) -> (result: Result<
    (Vec<UseTree>, usize),
    SyntaxError,
>)
    requires
        pos <= tokens@.len(),
    ensures
        is_parsed_list(result, parse_items(tokens_view(tokens@), pos as int)),
        result matches Ok(found) ==> pos < found.1 <= tokens@.len(),
    decreases tokens@.len() - pos, 1int,
{
    match parse_tree_at(tokens, pos) {
        Err(error) => Err(error),
        Ok((first, next)) => {
            if next >= tokens.len() {
                Err(SyntaxError { kind: SyntaxErrorKind::ExpectedSeparator, at: next })
            } else if is_comma_at(tokens, next) {
                match parse_items_at(tokens, next + 1) {
                    Ok((rest, end)) => {
                        let mut items = rest;
                        let ghost others = syntaxes_of(items@);
                        let ghost head = first@;
                        items.insert(0, first);
                        assert(syntaxes_of(items@) =~= seq![head] + others);
                        Ok((items, end))
                    },
                    Err(error) => Err(error),
                }
            } else if is_close_at(tokens, next) {
                let mut items: Vec<UseTree> = Vec::new();
                let ghost head = first@;
                items.push(first);
                assert(syntaxes_of(items@) =~= seq![head]);
                Ok((items, next + 1))
            } else {
                Err(SyntaxError { kind: SyntaxErrorKind::ExpectedSeparator, at: next })
            }
        },
    }
}

/// Parses the trees that stand in a row from token `pos` to the end.
pub(crate) fn parse_trees_at(tokens: &Vec<Token>, pos: usize) -> (result: Result<
    Vec<UseTree>,
    SyntaxError,
>)
    requires
        pos <= tokens@.len(),
    ensures
        match result {
            Ok(trees) => parse_trees(tokens_view(tokens@), pos as int) == Ok::<
                Seq<Syntax>,
                SyntaxError,
            >(syntaxes_of(trees@)),
            Err(error) => parse_trees(tokens_view(tokens@), pos as int) == Err::<
                Seq<Syntax>,
                SyntaxError,
            >(error),
        },
    decreases tokens@.len() - pos,
{
    if pos >= tokens.len() {
        let trees: Vec<UseTree> = Vec::new();
        assert(syntaxes_of(trees@) =~= Seq::<Syntax>::empty());
        return Ok(trees);
    }
    match parse_tree_at(tokens, pos) {
        Err(error) => Err(error),
        Ok((first, next)) => match parse_trees_at(tokens, next) {
            Ok(rest) => {
                let mut trees = rest;
                let ghost others = syntaxes_of(trees@);
                let ghost head = first@;
                trees.insert(0, first);
                assert(syntaxes_of(trees@) =~= seq![head] + others);
                Ok(trees)
            },
            Err(error) => Err(error),
        },
    }
}

/// The one tree that a list of tokens is, from the first token to the
/// last.
pub open spec fn parse_single(tokens: Seq<TokenView>) -> Result<Syntax, SyntaxError> {
    match parse_tree(tokens, 0) {
        Err(error) => Err(error),
        Ok(parsed) => if parsed.next == tokens.len() {
            Ok(parsed.tree)
        } else {
            Err(SyntaxError { kind: SyntaxErrorKind::TrailingTokens, at: parsed.next as usize })
        },
    }
}

/// Parses a text that holds one tree.
pub fn parse_use_tree(text: &str) -> (result: Result<UseTree, SyntaxError>)
    ensures
        match result {
            Ok(tree) => parse_single(lex(text@)) == Ok::<Syntax, SyntaxError>(tree@),
            Err(error) => parse_single(lex(text@)) == Err::<Syntax, SyntaxError>(error),
        },
{
    let tokens = tokenize(text);
    match parse_tree_at(&tokens, 0) {
        Err(error) => Err(error),
        Ok((tree, next)) => {
            if next == tokens.len() {
                Ok(tree)
            } else {
                Err(SyntaxError { kind: SyntaxErrorKind::TrailingTokens, at: next })
            }
        },
    }
}

/// Parses a text that holds trees in a row, with nothing but space
/// between them.
pub fn parse_use_trees(text: &str) -> (result: Result<Vec<UseTree>, SyntaxError>)
    ensures
        match result {
            Ok(trees) => parse_trees(lex(text@), 0) == Ok::<Seq<Syntax>, SyntaxError>(
                syntaxes_of(trees@),
            ),
            Err(error) => parse_trees(lex(text@), 0) == Err::<Seq<Syntax>, SyntaxError>(error),
        },
{
    let tokens = tokenize(text);
    parse_trees_at(&tokens, 0)
}

} // verus!
