//! Selectors and the walk that turns one parsed path of the selection
//! syntax into a selector.

use crate::text::{
    char_lowercase, lemma_less_asymmetric, lemma_less_total, lemma_less_transitive,
    lemma_names_less_asymmetric, lemma_names_less_total, lemma_names_less_transitive,
    lowercase_of_char, lowercase_of_str, names_before, names_less, str_before, str_eq,
    str_less, str_lowercase, strings_view,
};
use vstd::prelude::*;
use vstd::string::*;

verus! {

/// Which types of a namespace a selector takes.
#[derive(Debug, Clone, PartialEq, Eq)]
pub enum TypeLimit {
    /// Every type of the namespace.
    All,
    /// The types with these names.
    Named(Vec<String>),
}

/// A selector: a namespace and the types taken from it.
#[derive(Debug, Clone, PartialEq, Eq)]
pub struct NamespaceTypes {
    pub namespace: String,
    pub limit: TypeLimit,
}

/// What a `TypeLimit` stands for.
pub enum LimitView {
    All,
    Named(Seq<Seq<char>>),
}

/// What a `NamespaceTypes` stands for.
pub struct SelectorView {
    pub namespace: Seq<char>,
    pub limit: LimitView,
}

impl View for TypeLimit {
    type V = LimitView;

    open spec fn view(&self) -> LimitView {
        match self {
            TypeLimit::All => LimitView::All,
            TypeLimit::Named(names) => LimitView::Named(strings_view(names@)),
        }
    }
}

impl View for NamespaceTypes {
    type V = SelectorView;

    open spec fn view(&self) -> SelectorView {
        SelectorView { namespace: self.namespace@, limit: self.limit@ }
    }
}

impl SelectorView {
    /// Whether the selector takes the type of this name.
    pub open spec fn contains_type(self, name: Seq<char>) -> bool {
        match self.limit {
            LimitView::All => true,
            LimitView::Named(names) => names.contains(name),
        }
    }
}

impl NamespaceTypes {
    /// Whether the selector takes the type of this name. Names are
    /// compared exactly.
    pub fn contains_type(&self, typ: &str) -> (found: bool)
        ensures
            found == self@.contains_type(typ@),
    {
        match &self.limit {
            TypeLimit::All => true,
            TypeLimit::Named(names) => {
                let mut i: usize = 0;
                while i < names.len()
                    invariant
                        i <= names.len(),
                        self@.limit == LimitView::Named(strings_view(names@)),
                        forall|j: int| 0 <= j < i ==> names@[j]@ != typ@,
                    decreases names.len() - i,
                {
                    if str_eq(names[i].as_str(), typ) {
                        assert(strings_view(names@)[i as int] == typ@);
                        return true;
                    }
                    i += 1;
                }
                false
            },
        }
    }
}

/// A copy of a list of names.
pub fn copy_names(names: &Vec<String>) -> (copy: Vec<String>)
    ensures
        strings_view(copy@) == strings_view(names@),
{
    let mut copy: Vec<String> = Vec::new();
    let mut i: usize = 0;
    while i < names.len()
        invariant
            i <= names@.len(),
            copy@.len() == i,
            forall|j: int| 0 <= j < i ==> copy@[j]@ == names@[j]@,
        decreases names.len() - i,
    {
        copy.push(names[i].clone());
        i += 1;
    }
    assert(strings_view(copy@) =~= strings_view(names@));
    copy
}

/// Whether two lists hold the same names in the same order.
pub fn same_names(a: &Vec<String>, b: &Vec<String>) -> (same: bool)
    ensures
        same == (strings_view(a@) == strings_view(b@)),
{
    if a.len() != b.len() {
        assert(strings_view(a@).len() != strings_view(b@).len());
        return false;
    }
    let mut i: usize = 0;
    while i < a.len()
        invariant
            a@.len() == b@.len(),
            i <= a@.len(),
            forall|j: int| 0 <= j < i ==> a@[j]@ == b@[j]@,
        decreases a.len() - i,
    {
        if !str_eq(a[i].as_str(), b[i].as_str()) {
            assert(strings_view(a@)[i as int] != strings_view(b@)[i as int]);
            return false;
        }
        i += 1;
    }
    assert(strings_view(a@) =~= strings_view(b@));
    true
}

impl TypeLimit {
    /// A copy of the limit.
    pub fn duplicate(&self) -> (copy: Self)
        ensures
            copy@ == self@,
    {
        match self {
            TypeLimit::All => TypeLimit::All,
            TypeLimit::Named(names) => TypeLimit::Named(copy_names(names)),
        }
    }

    /// Whether two limits take the same types: both all, or both the same
    /// names in the same order.
    pub fn same_as(&self, other: &Self) -> (same: bool)
        ensures
            same == (self@ == other@),
    {
        match (self, other) {
            (TypeLimit::All, TypeLimit::All) => true,
            (TypeLimit::Named(a), TypeLimit::Named(b)) => same_names(a, b),
            _ => false,
        }
    }
}

impl NamespaceTypes {
    /// A copy of the selector.
    pub fn duplicate(&self) -> (copy: Self)
        ensures
            copy@ == self@,
    {
        NamespaceTypes { namespace: self.namespace.clone(), limit: self.limit.duplicate() }
    }

    /// Whether two selectors name the same namespace and take the same
    /// types of it.
    pub fn same_as(&self, other: &Self) -> (same: bool)
        ensures
            same == (self@ == other@),
    {
        str_eq(self.namespace.as_str(), other.namespace.as_str()) && self.limit.same_as(
            &other.limit,
        )
    }
}

/// The order of limits: all types come before any list of names, and
/// lists of names stand in their lexicographic order.
pub open spec fn limit_less(a: LimitView, b: LimitView) -> bool {
    match (a, b) {
        (LimitView::All, LimitView::Named(_)) => true,
        (LimitView::Named(x), LimitView::Named(y)) => names_less(x, y),
        _ => false,
    }
}

/// The order of selectors: by namespace, and within one namespace by
/// limit.
pub open spec fn selector_less(a: SelectorView, b: SelectorView) -> bool {
    str_less(a.namespace, b.namespace) || (a.namespace == b.namespace && limit_less(
        a.limit,
        b.limit,
    ))
}

/// Of two selectors at most one comes before the other, and none before
/// itself.
pub proof fn lemma_selector_less_asymmetric(a: SelectorView, b: SelectorView)
    requires
        selector_less(a, b),
    ensures
        !selector_less(b, a),
        a != b,
{
    if str_less(a.namespace, b.namespace) {
        lemma_less_asymmetric(a.namespace, b.namespace);
    } else {
        if str_less(b.namespace, a.namespace) {
            lemma_less_asymmetric(b.namespace, a.namespace);
        }
        match (a.limit, b.limit) {
            (LimitView::Named(x), LimitView::Named(y)) => {
                lemma_names_less_asymmetric(x, y);
            },
            _ => {},
        }
    }
}

/// The order of selectors is transitive.
pub proof fn lemma_selector_less_transitive(a: SelectorView, b: SelectorView, c: SelectorView)
    requires
        selector_less(a, b),
        selector_less(b, c),
    ensures
        selector_less(a, c),
{
    if str_less(a.namespace, b.namespace) && str_less(b.namespace, c.namespace) {
        lemma_less_transitive(a.namespace, b.namespace, c.namespace);
    } else if a.namespace == b.namespace && b.namespace == c.namespace {
        match (a.limit, b.limit, c.limit) {
            (LimitView::Named(x), LimitView::Named(y), LimitView::Named(z)) => {
                lemma_names_less_transitive(x, y, z);
            },
            _ => {},
        }
    }
}

/// The order of selectors is total: of two different selectors one comes
/// before the other.
pub proof fn lemma_selector_less_total(a: SelectorView, b: SelectorView)
    requires
        !selector_less(a, b),
        !selector_less(b, a),
    ensures
        a == b,
{
    lemma_less_total(a.namespace, b.namespace);
    match (a.limit, b.limit) {
        (LimitView::Named(x), LimitView::Named(y)) => {
            lemma_names_less_total(x, y);
        },
        _ => {},
    }
}

impl TypeLimit {
    /// Whether this limit comes before the other in the order of limits.
    pub fn comes_before(&self, other: &Self) -> (less: bool)
        ensures
            less == limit_less(self@, other@),
    {
        match (self, other) {
            (TypeLimit::All, TypeLimit::Named(_)) => true,
            (TypeLimit::Named(a), TypeLimit::Named(b)) => names_before(a, b),
            _ => false,
        }
    }
}

impl NamespaceTypes {
    /// Whether this selector comes before the other in the order of
    /// selectors.
    pub fn comes_before(&self, other: &Self) -> (less: bool)
        ensures
            less == selector_less(self@, other@),
    {
        if str_before(self.namespace.as_str(), other.namespace.as_str()) {
            true
        } else if str_eq(self.namespace.as_str(), other.namespace.as_str()) {
            self.limit.comes_before(&other.limit)
        } else {
            false
        }
    }
}

/// A parsed path of the selection syntax.
#[derive(Debug, PartialEq, Eq)]
pub enum UseTree {
    /// A segment followed by the rest of the path.
    Path { ident: String, tree: Box<UseTree> },
    /// A single name at the end of a path.
    Name { ident: String },
    /// A name given another local name.
    Rename { ident: String, rename: String },
    /// The wildcard.
    Glob,
    /// A group of trees in braces.
    Group { items: Vec<UseTree> },
}

/// What a `UseTree` stands for: the same tree over character sequences.
pub enum Syntax {
    Path { ident: Seq<char>, tree: Box<Syntax> },
    Name { ident: Seq<char> },
    Rename { ident: Seq<char>, rename: Seq<char> },
    Glob,
    Group { items: Seq<Syntax> },
}

/// The tree that a `UseTree` stands for.
pub open spec fn syntax_of(tree: UseTree) -> Syntax
    decreases tree,
{
    match tree {
        UseTree::Path { ident, tree } => Syntax::Path {
            ident: ident@,
            tree: Box::new(syntax_of(*tree)),
        },
        UseTree::Name { ident } => Syntax::Name { ident: ident@ },
        UseTree::Rename { ident, rename } => Syntax::Rename { ident: ident@, rename: rename@ },
        UseTree::Glob => Syntax::Glob,
        UseTree::Group { items } => Syntax::Group {
            items: Seq::new(
                items@.len(),
                |i: int|
                    if 0 <= i < items@.len() {
                        syntax_of(items@[i])
                    } else {
                        Syntax::Glob
                    },
            ),
        },
    }
}

impl View for UseTree {
    type V = Syntax;

    open spec fn view(&self) -> Syntax {
        syntax_of(*self)
    }
}

/// Why a path is no selector.
#[derive(Debug, Clone, Copy, PartialEq, Eq, Structural)]
pub enum SelectorErrorKind {
    /// A name in type position is written like a module.
    ModuleInsteadOfType,
    /// A name is given another local name.
    RenameUnsupported,
    /// A member of a group is itself a path, a group or a wildcard.
    NestedPath,
}

/// A rejected path: the reason, and the offending member of the group,
/// counted from zero, or `None` where the end of the path itself offends.
#[derive(Debug, Clone, Copy, PartialEq, Eq, Structural)]
pub struct SelectorError {
    pub kind: SelectorErrorKind,
    pub item: Option<usize>,
}

impl SelectorError {
    /// The text of the diagnostic.
    pub fn message(&self) -> (text: &'static str)
        ensures
            text@ == match self.kind {
                SelectorErrorKind::ModuleInsteadOfType =>
                    "Expected `*` or type name, but found what appears to be a module"@,
                SelectorErrorKind::RenameUnsupported => "Renaming syntax is not supported"@,
                SelectorErrorKind::NestedPath => "Nested paths not allowed"@,
            },
    {
        match self.kind {
            SelectorErrorKind::ModuleInsteadOfType =>
                "Expected `*` or type name, but found what appears to be a module",
            SelectorErrorKind::RenameUnsupported => "Renaming syntax is not supported",
            SelectorErrorKind::NestedPath => "Nested paths not allowed",
        }
    }
}

/// The part that one character of a namespace adds to its rough form:
/// nothing for a quote or an underscore, else its lowercase mapping.
pub open spec fn rough_char(c: char, lowered: Seq<char>) -> Seq<char> {
    if c == '"' || c == '_' {
        Seq::empty()
    } else {
        lowered
    }
}

/// The rough form of a namespace: quotes and underscores dropped, every
/// other character replaced by its lowercase mapping.
pub open spec fn rough_namespace(namespace: Seq<char>) -> Seq<char>
    decreases namespace.len(),
{
    if namespace.len() == 0 {
        Seq::empty()
    } else {
        rough_namespace(namespace.drop_last()) + rough_char(
            namespace.last(),
            char_lowercase(namespace.last()),
        )
    }
}

/// Appends to `result` what the character `c` adds to a rough namespace,
/// given the lowercase mapping of `c`.
pub fn push_rough_char(result: &mut String, c: char, lowered: &Vec<char>)
    ensures
        final(result)@ == old(result)@ + rough_char(c, lowered@),
{
    if c != '"' && c != '_' {
        let mut i: usize = 0;
        while i < lowered.len()
            invariant
                i <= lowered.len(),
                result@ == old(result)@ + lowered@.subrange(0, i as int),
            decreases lowered.len() - i,
        {
            result.push(lowered[i]);
            i += 1;
        }
        assert(lowered@.subrange(0, i as int) == lowered@);
    }
}

/// Turns a namespace as written into its rough form. Casing is settled
/// later, against the namespaces that the metadata knows.
pub fn namespace_literal_to_rough_namespace(namespace: &str) -> (result: String)
    ensures
        result@ == rough_namespace(namespace@),
{
    let n: usize = namespace.unicode_len();
    let mut result = String::new();
    let mut i: usize = 0;
    while i < n
        invariant
            n == namespace@.len(),
            i <= n,
            result@ == rough_namespace(namespace@.subrange(0, i as int)),
        decreases n - i,
    {
        let c = namespace.get_char(i);
        let lowered = lowercase_of_char(c);
        push_rough_char(&mut result, c, &lowered);
        proof {
            let next = namespace@.subrange(0, i + 1);
            assert(next.drop_last() == namespace@.subrange(0, i as int));
            assert(next.last() == c);
        }
        i += 1;
    }
    assert(namespace@.subrange(0, n as int) == namespace@);
    result
}

/// Whether a name is written like a module: it is its own lowercase form.
pub open spec fn looks_like_module(name: Seq<char>) -> bool {
    str_lowercase(name) == name
}

/// Whether `name` equals `lowered`, its lowercase form.
pub fn is_own_lowercase(name: &str, lowered: &str) -> (same: bool)
    ensures
        same == (lowered@ == name@),
{
    str_eq(lowered, name)
}

/// Rejects a name in type position that is written like a module.
pub fn check_for_module_instead_of_type(name: &str) -> (result: Result<(), SelectorErrorKind>)
    ensures
        result == if looks_like_module(name@) {
            Err::<(), SelectorErrorKind>(SelectorErrorKind::ModuleInsteadOfType)
        } else {
            Ok(())
        },
{
    let lowered = lowercase_of_str(name);
    if is_own_lowercase(name, lowered.as_str()) {
        Err(SelectorErrorKind::ModuleInsteadOfType)
    } else {
        Ok(())
    }
}

/// Why a member of a group is rejected, if it is.
pub open spec fn item_error(item: Syntax) -> Option<SelectorErrorKind> {
    match item {
        Syntax::Name { ident } => if looks_like_module(ident) {
            Some(SelectorErrorKind::ModuleInsteadOfType)
        } else {
            None
        },
        Syntax::Rename { .. } => Some(SelectorErrorKind::RenameUnsupported),
        _ => Some(SelectorErrorKind::NestedPath),
    }
}

/// The name that a member of a group contributes.
pub open spec fn item_name(item: Syntax) -> Seq<char> {
    match item {
        Syntax::Name { ident } => ident,
        _ => Seq::empty(),
    }
}

/// Whether member `i` is the first rejected member of a group.
pub open spec fn is_first_rejected(items: Seq<Syntax>, i: int) -> bool {
    &&& 0 <= i < items.len()
    &&& item_error(items[i]) is Some
    &&& forall|j: int| 0 <= j < i ==> item_error(#[trigger] items[j]) is None
}

/// The namespace that a path has collected, extended by one more segment.
pub open spec fn join_segment(current: Seq<char>, ident: Seq<char>) -> Seq<char> {
    if current.len() == 0 {
        ident
    } else {
        current.push('.') + ident
    }
}

/// What a group at the end of a path whose segments make `current` selects.
pub open spec fn group_selector(items: Seq<Syntax>, current: Seq<char>) -> Result<
    SelectorView,
    SelectorError,
> {
    if exists|i: int| is_first_rejected(items, i) {
        let i = choose|i: int| is_first_rejected(items, i);
        Err(SelectorError { kind: item_error(items[i])->0, item: Some(i as usize) })
    } else {
        Ok(
            SelectorView {
                namespace: rough_namespace(current),
                limit: LimitView::Named(Seq::new(items.len(), |i: int| item_name(items[i]))),
            },
        )
    }
}

/// What a tree selects when the segments before it make `current`.
pub open spec fn tree_selector(tree: Syntax, current: Seq<char>) -> Result<
    SelectorView,
    SelectorError,
>
    decreases tree,
{
    match tree {
        Syntax::Path { ident, tree } => tree_selector(*tree, join_segment(current, ident)),
        Syntax::Glob => Ok(
            SelectorView { namespace: rough_namespace(current), limit: LimitView::All },
        ),
        Syntax::Group { items } => group_selector(items, current),
        Syntax::Name { ident } => if looks_like_module(ident) {
            Err(SelectorError { kind: SelectorErrorKind::ModuleInsteadOfType, item: None })
        } else {
            Ok(
                SelectorView {
                    namespace: rough_namespace(current),
                    limit: LimitView::Named(seq![ident]),
                },
            )
        },
        Syntax::Rename { .. } => Err(
            SelectorError { kind: SelectorErrorKind::RenameUnsupported, item: None },
        ),
    }
}

/// What a tree selects.
pub open spec fn selector_of(tree: Syntax) -> Result<SelectorView, SelectorError> {
    tree_selector(tree, Seq::empty())
}

/// Whether an outcome of the walk is the one that the syntax prescribes.
pub open spec fn is_outcome(
    result: Result<NamespaceTypes, SelectorError>,
    expected: Result<SelectorView, SelectorError>,
) -> bool {
    match result {
        Ok(selector) => expected == Ok::<SelectorView, SelectorError>(selector@),
        Err(error) => expected == Err::<SelectorView, SelectorError>(error),
    }
}

/// The trees that a list of trees stands for.
pub open spec fn syntaxes_of(items: Seq<UseTree>) -> Seq<Syntax> {
    Seq::new(items.len(), |i: int| items[i]@)
}

/// The names of the members of a group, or the first member that is none.
fn group_names(items: &Vec<UseTree>) -> (result: Result<Vec<String>, SelectorError>)
    ensures
        match result {
            Ok(names) => {
                &&& forall|i: int| !is_first_rejected(syntaxes_of(items@), i)
                &&& strings_view(names@) == Seq::new(
                    items@.len(),
                    |i: int| item_name(syntaxes_of(items@)[i]),
                )
            },
            Err(error) => {
                &&& error.item is Some
                &&& is_first_rejected(syntaxes_of(items@), error.item->0 as int)
                &&& error.kind == item_error(syntaxes_of(items@)[error.item->0 as int])->0
            },
        },
{
    let ghost trees = syntaxes_of(items@);
    let mut names: Vec<String> = Vec::new();
    let mut i: usize = 0;
    while i < items.len()
        invariant
            i <= items.len(),
            trees == syntaxes_of(items@),
            names@.len() == i,
            forall|j: int| 0 <= j < i ==> item_error(#[trigger] trees[j]) is None,
            forall|j: int| 0 <= j < i ==> (#[trigger] names@[j])@ == item_name(trees[j]),
        decreases items.len() - i,
    {
        assert(trees[i as int] == items@[i as int]@);
        match &items[i] {
            UseTree::Name { ident } => {
                match check_for_module_instead_of_type(ident.as_str()) {
                    Ok(()) => {
                        names.push(ident.clone());
                    },
                    Err(kind) => {
                        return Err(SelectorError { kind, item: Some(i) });
                    },
                }
            },
            UseTree::Rename { .. } => {
                return Err(
                    SelectorError { kind: SelectorErrorKind::RenameUnsupported, item: Some(i) },
                );
            },
            _ => {
                return Err(SelectorError { kind: SelectorErrorKind::NestedPath, item: Some(i) });
            },
        }
        i += 1;
    }
    assert(strings_view(names@) =~= Seq::new(items@.len(), |i: int| item_name(trees[i])));
    Ok(names)
}

/// Walks a tree whose leading segments have been collected in `current`.
fn recurse(tree: &UseTree, current: &mut String) -> (result: Result<
    NamespaceTypes,
    SelectorError,
>)
    ensures
        is_outcome(result, tree_selector(tree@, old(current)@)),
    decreases tree,
{
    match tree {
        UseTree::Path { ident, tree } => {
            if current.unicode_len() != 0 {
                current.push('.');
            }
            current.append(ident.as_str());
            recurse(tree, current)
        },
        UseTree::Glob => {
            let namespace = namespace_literal_to_rough_namespace(current.as_str());
            Ok(NamespaceTypes { namespace, limit: TypeLimit::All })
        },
        UseTree::Group { items } => {
            let namespace = namespace_literal_to_rough_namespace(current.as_str());
            assert(tree@ == Syntax::Group { items: syntaxes_of(items@) }) by {
                assert(tree@->Group_items =~= syntaxes_of(items@));
            }
            match group_names(items) {
                Ok(names) => Ok(NamespaceTypes { namespace, limit: TypeLimit::Named(names) }),
                Err(error) => {
                    let ghost chosen = choose|i: int| is_first_rejected(syntaxes_of(items@), i);
                    assert(chosen == error.item->0 as int);
                    Err(error)
                },
            }
        },
        UseTree::Name { ident } => {
            let namespace = namespace_literal_to_rough_namespace(current.as_str());
            match check_for_module_instead_of_type(ident.as_str()) {
                Ok(()) => {
                    let mut names: Vec<String> = Vec::new();
                    names.push(ident.clone());
                    assert(strings_view(names@) =~= seq![ident@]);
                    Ok(NamespaceTypes { namespace, limit: TypeLimit::Named(names) })
                },
                Err(kind) => Err(SelectorError { kind, item: None }),
            }
        },
        UseTree::Rename { .. } => Err(
            SelectorError { kind: SelectorErrorKind::RenameUnsupported, item: None },
        ),
    }
}

/// Turns a parsed path into a selector. The segments of the path, joined
/// by dots, make the namespace, taken in its rough form; the end of the
/// path says which types are taken.
pub fn use_tree_to_namespace_types(use_tree: &UseTree) -> (result: Result<
    NamespaceTypes,
    SelectorError,
>)
    ensures
        is_outcome(result, selector_of(use_tree@)),
{
    let mut current = String::new();
    recurse(use_tree, &mut current)
}

} // verus!
