//! The declared selectors of a build, as a set in the order of
//! selectors.

use crate::selector::{
    lemma_selector_less_asymmetric, lemma_selector_less_total, lemma_selector_less_transitive,
    selector_less, selector_of, use_tree_to_namespace_types, NamespaceTypes, SelectorError,
    SelectorView, UseTree,
};
use vstd::prelude::*;
use vstd::string::*;

verus! {

/// One declared selector, and the position, among the declared paths, of
/// the path that it was written as.
#[derive(Debug, Clone, PartialEq, Eq)]
pub struct TypesDeclaration {
    pub types: NamespaceTypes,
    pub syntax: usize,
}

/// What a `TypesDeclaration` stands for.
pub struct DeclarationView {
    pub types: SelectorView,
    pub syntax: usize,
}

impl View for TypesDeclaration {
    type V = DeclarationView;

    open spec fn view(&self) -> DeclarationView {
        DeclarationView { types: self.types@, syntax: self.syntax }
    }
}

impl TypesDeclaration {
    /// The declaration that the path at position `syntax` makes, where
    /// the path is a selector.
    pub fn try_from(tree: &UseTree, syntax: usize) -> (result: Result<Self, SelectorError>)
        ensures
            match result {
                Ok(declaration) => {
                    &&& selector_of(tree@) == Ok::<SelectorView, SelectorError>(
                        declaration@.types,
                    )
                    &&& declaration.syntax == syntax
                },
                Err(error) => selector_of(tree@) == Err::<
                    SelectorView,
                    SelectorError,
                >(error),
            },
    {
        match use_tree_to_namespace_types(tree) {
            Ok(types) => Ok(TypesDeclaration { types, syntax }),
            Err(error) => Err(error),
        }
    }
}

/// The declared selectors. No selector occurs twice, and they stand in
/// the order of selectors: by namespace, and within one namespace by
/// limit.
#[derive(Debug, Clone, PartialEq, Eq)]
pub struct TypesDeclarations {
    pub declarations: Vec<TypesDeclaration>,
}

impl View for TypesDeclarations {
    type V = Seq<DeclarationView>;

    open spec fn view(&self) -> Seq<DeclarationView> {
        Seq::new(self.declarations@.len(), |i: int| self.declarations@[i]@)
    }
}

/// Whether one of the declarations is this selector.
pub open spec fn holds(declared: Seq<DeclarationView>, types: SelectorView) -> bool {
    exists|i: int| 0 <= i < declared.len() && (#[trigger] declared[i]).types == types
}

/// Whether the declarations stand in the order of their selectors, each
/// selector once.
pub open spec fn in_order(declared: Seq<DeclarationView>) -> bool {
    forall|i: int, j: int|
        0 <= i < j < declared.len() ==> selector_less(declared[i].types, declared[j].types)
}

/// Whether `position` is where this selector stands among the
/// declarations, or where it would have to be put: every selector before
/// it comes before this one, and none from there on does.
pub open spec fn is_place(
    declared: Seq<DeclarationView>,
    types: SelectorView,
    position: int,
) -> bool {
    &&& 0 <= position <= declared.len()
    &&& forall|i: int|
        0 <= i < position ==> selector_less((#[trigger] declared[i]).types, types)
    &&& forall|i: int|
        position <= i < declared.len() ==> !selector_less((#[trigger] declared[i]).types, types)
}

/// The place of a selector among the declarations.
pub open spec fn place(declared: Seq<DeclarationView>, types: SelectorView) -> int {
    choose|position: int| is_place(declared, types, position)
}

/// The declarations with one more declared: a selector that is there
/// already changes nothing, a new one goes to its place.
pub open spec fn with_declaration(
    declared: Seq<DeclarationView>,
    declaration: DeclarationView,
) -> Seq<DeclarationView> {
    if holds(declared, declaration.types) {
        declared
    } else {
        declared.insert(place(declared, declaration.types), declaration)
    }
}

/// There is one place only.
pub proof fn lemma_place_unique(
    declared: Seq<DeclarationView>,
    types: SelectorView,
    position: int,
)
    requires
        is_place(declared, types, position),
    ensures
        place(declared, types) == position,
{
    let other = place(declared, types);
    if other < position {
        assert(selector_less(declared[other].types, types));
    } else if position < other {
        assert(!selector_less(declared[position].types, types));
    }
}

/// Declarations in order hold a selector only at its place.
pub proof fn lemma_place_decides(
    declared: Seq<DeclarationView>,
    types: SelectorView,
    position: int,
)
    requires
        in_order(declared),
        is_place(declared, types, position),
    ensures
        holds(declared, types) <==> position < declared.len() && declared[position].types
            == types,
{
    if holds(declared, types) {
        let i = choose|i: int| 0 <= i < declared.len() && (#[trigger] declared[i]).types == types;
        if i < position {
            lemma_selector_less_asymmetric(declared[i].types, types);
        } else if i > position {
            assert(selector_less(declared[position].types, declared[i].types));
        }
    }
}

/// A new declaration at its place keeps the declarations in order.
pub proof fn lemma_insert_in_order(
    declared: Seq<DeclarationView>,
    declaration: DeclarationView,
    position: int,
)
    requires
        in_order(declared),
        !holds(declared, declaration.types),
        is_place(declared, declaration.types, position),
    ensures
        in_order(declared.insert(position, declaration)),
{
    let longer = declared.insert(position, declaration);
    assert forall|i: int, j: int| 0 <= i < j < longer.len() implies selector_less(
        longer[i].types,
        longer[j].types,
    ) by {
        if j == position {
            assert(longer[i] == declared[i]);
        } else if i == position {
            let after = declared[j - 1];
            assert(longer[j] == after);
            assert(!selector_less(after.types, declaration.types));
            if !selector_less(declaration.types, after.types) {
                lemma_selector_less_total(declaration.types, after.types);
            }
        } else {
            let x = if i < position {
                i
            } else {
                i - 1
            };
            let y = if j < position {
                j
            } else {
                j - 1
            };
            assert(longer[i] == declared[x]);
            assert(longer[j] == declared[y]);
        }
    }
}

impl TypesDeclarations {
    /// Whether the declarations are in order, each selector once.
    pub open spec fn wf(&self) -> bool {
        in_order(self@)
    }

    /// No declaration.
    pub fn new() -> (declarations: Self)
        ensures
            declarations.wf(),
            declarations@ == Seq::<DeclarationView>::empty(),
    {
        let declarations = TypesDeclarations { declarations: Vec::new() };
        assert(declarations@ =~= Seq::<DeclarationView>::empty());
        declarations
    }

    /// The place of a selector among the declarations, and whether it is
    /// declared.
    pub fn locate(&self, types: &NamespaceTypes) -> (found: (usize, bool))
        requires
            self.wf(),
        ensures
            is_place(self@, types@, found.0 as int),
            found.1 == holds(self@, types@),
    {
        let ghost declared = self@;
        let mut position: usize = 0;
        while position < self.declarations.len() && self.declarations[position].types.comes_before(
            types,
        )
            invariant
                position <= self.declarations@.len(),
                declared == self@,
                forall|i: int|
                    0 <= i < position ==> selector_less((#[trigger] declared[i]).types, types@),
            decreases self.declarations.len() - position,
        {
            position += 1;
        }
        proof {
            assert forall|i: int| position <= i < declared.len() implies !selector_less(
                (#[trigger] declared[i]).types,
                types@,
            ) by {
                assert(!selector_less(declared[position as int].types, types@));
                if i > position && selector_less(declared[i].types, types@) {
                    assert(selector_less(declared[position as int].types, declared[i].types));
                    lemma_selector_less_transitive(
                        declared[position as int].types,
                        declared[i].types,
                        types@,
                    );
                }
            }
            lemma_place_decides(declared, types@, position as int);
        }
        let found = position < self.declarations.len() && self.declarations[position].types.same_as(
            types,
        );
        (position, found)
    }

    /// Whether one of the declarations is this selector.
    pub fn contains(&self, types: &NamespaceTypes) -> (found: bool)
        requires
            self.wf(),
        ensures
            found == holds(self@, types@),
    {
        self.locate(types).1
    }

    /// Declares one more selector. Returns whether it is new; one that
    /// was declared before leaves the declarations as they are.
    pub fn insert(&mut self, declaration: TypesDeclaration) -> (added: bool)
        requires
            old(self).wf(),
        ensures
            final(self).wf(),
            added == !holds(old(self)@, declaration@.types),
            final(self)@ == with_declaration(old(self)@, declaration@),
    {
        let (position, found) = self.locate(&declaration.types);
        if found {
            return false;
        }
        let ghost declared = self@;
        let ghost added = declaration@;
        proof {
            lemma_place_unique(declared, added.types, position as int);
            lemma_insert_in_order(declared, added, position as int);
        }
        self.declarations.insert(position, declaration);
        assert(self@ =~= declared.insert(position as int, added));
        true
    }
}

/// What the first `n` of the declared paths make, where every one of
/// them is a selector.
pub open spec fn collected(trees: Seq<UseTree>, n: int) -> Seq<DeclarationView>
    decreases n,
{
    if n <= 0 {
        Seq::empty()
    } else {
        with_declaration(
            collected(trees, n - 1),
            DeclarationView {
                types: selector_of(trees[n - 1]@)->Ok_0,
                syntax: (n - 1) as usize,
            },
        )
    }
}

/// Whether path `i` is the first of the declared paths that is no
/// selector.
pub open spec fn is_first_rejected_path(trees: Seq<UseTree>, i: int) -> bool {
    &&& 0 <= i < trees.len()
    &&& selector_of(trees[i]@) is Err
    &&& forall|j: int| 0 <= j < i ==> selector_of((#[trigger] trees[j])@) is Ok
}

/// A declared path that is no selector: its position among the declared
/// paths, and why it is rejected.
#[derive(Debug, Clone, Copy, PartialEq, Eq, Structural)]
pub struct DeclarationError {
    pub syntax: usize,
    pub error: SelectorError,
}

impl TypesDeclarations {
    /// Collects what the declared paths select. The first path that is
    /// no selector ends the collection.
    pub fn from_trees(trees: &Vec<UseTree>) -> (result: Result<Self, DeclarationError>)
        ensures
            match result {
                Ok(declarations) => {
                    &&& declarations.wf()
                    &&& forall|i: int|
                        0 <= i < trees@.len() ==> selector_of(
                            (#[trigger] trees@[i])@,
                        ) is Ok
                    &&& declarations@ == collected(trees@, trees@.len() as int)
                },
                Err(rejected) => {
                    &&& is_first_rejected_path(trees@, rejected.syntax as int)
                    &&& selector_of(trees@[rejected.syntax as int]@) == Err::<
                        SelectorView,
                        SelectorError,
                    >(rejected.error)
                },
            },
    {
        let mut declarations = TypesDeclarations::new();
        let mut i: usize = 0;
        while i < trees.len()
            invariant
                i <= trees@.len(),
                declarations.wf(),
                forall|j: int| 0 <= j < i ==> selector_of((#[trigger] trees@[j])@) is Ok,
                declarations@ == collected(trees@, i as int),
            decreases trees.len() - i,
        {
            match TypesDeclaration::try_from(&trees[i], i) {
                Ok(declaration) => {
                    declarations.insert(declaration);
                },
                Err(error) => {
                    return Err(DeclarationError { syntax: i, error });
                },
            }
            i += 1;
        }
        Ok(declarations)
    }
}

} // verus!
