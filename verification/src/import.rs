//! A parsed import: from the declarations to the tree of types to
//! generate.

use crate::closure::{is_known, resolved, TypeLimits};
use crate::declarations::{
    collected, holds, is_first_rejected_path, DeclarationError, DeclarationView,
    TypesDeclarations,
};
use crate::grammar::Declaration;
use crate::dependencies::Dependencies;
use crate::selector::{
    namespace_literal_to_rough_namespace, rough_namespace, selector_of, LimitView,
    NamespaceTypes, SelectorError, SelectorView, TypeLimit,
};
use crate::tree::{foundation_name, foundation_namespace, selection_tree, NamespaceTree, TreeView};
use crate::universe::TypeUniverse;
use vstd::prelude::*;
use vstd::string::*;

verus! {

/// A parsed import: whether the foundation namespaces are generated too,
/// the metadata files, and the declared selectors.
#[derive(Debug, Clone, PartialEq, Eq)]
pub struct ImportMacro {
    pub foundation: bool,
    pub dependencies: Dependencies,
    pub types: TypesDeclarations,
}

/// A selector whose namespace the universe does not have: the namespace
/// in its rough form, and the position, among the declared paths, of the
/// path that names it. A foundation namespace has no such position.
#[derive(Debug, Clone, PartialEq, Eq)]
pub struct UnknownNamespace {
    pub namespace: String,
    pub syntax: Option<usize>,
}

impl UnknownNamespace {
    /// The text of the diagnostic.
    pub fn message(&self) -> (text: String)
        ensures
            text@ == "'"@ + self.namespace@ + "' is not a known namespace"@,
    {
        String::from_str("'").concat(self.namespace.as_str()).concat("' is not a known namespace")
    }
}

/// One selector that a selection asks for, and the path that it was
/// written as, if any.
pub struct Request {
    pub types: SelectorView,
    pub syntax: Option<usize>,
}

/// The selector that takes every type of foundation namespace `i`.
pub open spec fn foundation_request(i: int) -> Request {
    Request {
        types: SelectorView {
            namespace: rough_namespace(foundation_name(i)),
            limit: LimitView::All,
        },
        syntax: None,
    }
}

/// All that a selection asks for, in order: every type of the four
/// foundation namespaces, where these are included, and then the
/// declared selectors.
pub open spec fn requests(foundation: bool, declared: Seq<DeclarationView>) -> Seq<Request> {
    let first = if foundation {
        Seq::new(4, |i: int| foundation_request(i))
    } else {
        Seq::empty()
    };
    first + Seq::new(
        declared.len(),
        |i: int| Request { types: declared[i].types, syntax: Some(declared[i].syntax) },
    )
}

/// Whether request `i` is the first whose namespace the universe does not
/// have.
pub open spec fn is_first_unknown(universe: &TypeUniverse, requests: Seq<Request>, i: int) -> bool {
    &&& 0 <= i < requests.len()
    &&& !is_known(universe, requests[i].types.namespace)
    &&& forall|j: int| 0 <= j < i ==> is_known(universe, (#[trigger] requests[j]).types.namespace)
}

/// The first `n` requests, each with the namespace that it stands for.
pub open spec fn resolved_requests(
    universe: &TypeUniverse,
    requests: Seq<Request>,
    n: int,
) -> Set<SelectorView> {
    Set::new(
        |limit: SelectorView|
            exists|i: int|
                0 <= i < n && resolved(universe, (#[trigger] requests[i]).types) == limit,
    )
}

/// The tree that an import yields over a universe where every requested
/// namespace is known.
pub open spec fn import_tree(
    universe: &TypeUniverse,
    foundation: bool,
    declared: Seq<DeclarationView>,
) -> TreeView {
    let asked = requests(foundation, declared);
    selection_tree(universe, resolved_requests(universe, asked, asked.len() as int), foundation)
}

impl ImportMacro {
    /// The import that a declaration makes, given the metadata files that
    /// its dependencies were resolved to. The first declared path that
    /// is no selector is returned as the error.
    pub fn parse(declaration: &Declaration, dependencies: Dependencies) -> (result: Result<
        Self,
        DeclarationError,
    >)
        ensures
            match result {
                Ok(import) => {
                    &&& import.foundation == declaration.foundation
                    &&& import.dependencies == dependencies
                    &&& import.types.wf()
                    &&& forall|i: int|
                        0 <= i < declaration.types@.len() ==> selector_of(
                            (#[trigger] declaration.types@[i])@,
                        ) is Ok
                    &&& import.types@ == collected(
                        declaration.types@,
                        declaration.types@.len() as int,
                    )
                },
                Err(rejected) => {
                    &&& is_first_rejected_path(declaration.types@, rejected.syntax as int)
                    &&& selector_of(declaration.types@[rejected.syntax as int]@) == Err::<
                        SelectorView,
                        SelectorError,
                    >(rejected.error)
                },
            },
    {
        match TypesDeclarations::from_trees(&declaration.types) {
            Ok(types) => Ok(
                ImportMacro { foundation: declaration.foundation, dependencies, types },
            ),
            Err(rejected) => Err(rejected),
        }
    }

    /// The paths of the metadata files, in order.
    pub fn winmd_paths(&self) -> (paths: &Vec<String>)
        ensures
            paths == &self.dependencies.paths.names,
    {
        self.dependencies.winmd_paths()
    }

    /// Resolves all that the import asks for against the universe. The
    /// first request whose namespace the universe does not have ends the
    /// resolution, and is returned.
    pub fn limits(&self, universe: &TypeUniverse) -> (result: Result<TypeLimits, UnknownNamespace>)
        ensures
            match result {
                Ok(limits) => {
                    let asked = requests(self.foundation, self.types@);
                    &&& forall|i: int|
                        0 <= i < asked.len() ==> is_known(
                            universe,
                            (#[trigger] asked[i]).types.namespace,
                        )
                    &&& limits@ == resolved_requests(universe, asked, asked.len() as int)
                },
                Err(unknown) => {
                    let asked = requests(self.foundation, self.types@);
                    exists|i: int|
                        {
                            &&& #[trigger] is_first_unknown(universe, asked, i)
                            &&& unknown.namespace@ == asked[i].types.namespace
                            &&& unknown.syntax == asked[i].syntax
                        }
                },
            },
    {
        let ghost asked = requests(self.foundation, self.types@);
        let mut limits = TypeLimits::new();
        let mut offset: usize = 0;
        assert(resolved_requests(universe, asked, 0) =~= Set::<SelectorView>::empty());
        if self.foundation {
            while offset < 4
                invariant
                    self.foundation,
                    asked == requests(self.foundation, self.types@),
                    offset <= 4,
                    forall|i: int|
                        0 <= i < offset ==> is_known(
                            universe,
                            (#[trigger] asked[i]).types.namespace,
                        ),
                    limits@ == resolved_requests(universe, asked, offset as int),
                decreases 4 - offset,
            {
                let name = foundation_namespace(offset).unwrap();
                let request = NamespaceTypes {
                    namespace: namespace_literal_to_rough_namespace(name),
                    limit: TypeLimit::All,
                };
                assert(request@ == asked[offset as int].types);
                let ghost before = limits@;
                match limits.insert(universe, request) {
                    Ok(()) => {
                        proof {
                            lemma_one_more(universe, asked, offset as int);
                        }
                    },
                    Err(namespace) => {
                        assert(is_first_unknown(universe, asked, offset as int));
                        return Err(UnknownNamespace { namespace, syntax: None });
                    },
                }
                offset += 1;
            }
        }
        let mut i: usize = 0;
        while i < self.types.declarations.len()
            invariant
                asked == requests(self.foundation, self.types@),
                offset == if self.foundation {
                    4int
                } else {
                    0int
                },
                i <= self.types.declarations@.len(),
                asked.len() == offset + self.types.declarations@.len(),
                forall|k: int|
                    0 <= k < offset + i ==> is_known(
                        universe,
                        (#[trigger] asked[k]).types.namespace,
                    ),
                limits@ == resolved_requests(universe, asked, offset + i),
            decreases self.types.declarations.len() - i,
        {
            let declaration = &self.types.declarations[i];
            let request = declaration.types.duplicate();
            assert(self.types@[i as int] == declaration@);
            assert(asked[offset + i].types == request@);
            assert(asked[offset + i].syntax == Some(declaration.syntax));
            match limits.insert(universe, request) {
                Ok(()) => {
                    proof {
                        lemma_one_more(universe, asked, offset + i);
                    }
                },
                Err(namespace) => {
                    assert(is_first_unknown(universe, asked, offset + i));
                    return Err(UnknownNamespace { namespace, syntax: Some(declaration.syntax) });
                },
            }
            i += 1;
        }
        Ok(limits)
    }

    /// The tree of the types to generate: the closure of what the import
    /// asks for, pruned where the foundation namespaces are left out.
    pub fn to_tree(&self, universe: &TypeUniverse) -> (result: Result<
        NamespaceTree,
        UnknownNamespace,
    >)
        requires
            universe.wf(),
        ensures
            match result {
                Ok(tree) => {
                    let asked = requests(self.foundation, self.types@);
                    &&& forall|i: int|
                        0 <= i < asked.len() ==> is_known(
                            universe,
                            (#[trigger] asked[i]).types.namespace,
                        )
                    &&& tree.fits(universe)
                    &&& tree@ == import_tree(universe, self.foundation, self.types@)
                },
                Err(unknown) => {
                    let asked = requests(self.foundation, self.types@);
                    exists|i: int|
                        {
                            &&& #[trigger] is_first_unknown(universe, asked, i)
                            &&& unknown.namespace@ == asked[i].types.namespace
                            &&& unknown.syntax == asked[i].syntax
                        }
                },
            },
    {
        match self.limits(universe) {
            Ok(limits) => {
                let tree = NamespaceTree::from_limits(universe, &limits);
                Ok(tree.prune(universe, self.foundation))
            },
            Err(unknown) => Err(unknown),
        }
    }
}

/// Resolving one more request adds what it resolves to.
proof fn lemma_one_more(universe: &TypeUniverse, requests: Seq<Request>, n: int)
    requires
        0 <= n < requests.len(),
    ensures
        resolved_requests(universe, requests, n + 1) == resolved_requests(
            universe,
            requests,
            n,
        ).insert(resolved(universe, requests[n].types)),
{
    let more = resolved_requests(universe, requests, n + 1);
    let fewer = resolved_requests(universe, requests, n);
    let added = resolved(universe, requests[n].types);
    assert forall|limit: SelectorView| more.contains(limit) <==> fewer.insert(added).contains(
        limit,
    ) by {
        if more.contains(limit) {
            let i = choose|i: int|
                0 <= i < n + 1 && resolved(universe, (#[trigger] requests[i]).types) == limit;
            if i < n {
                assert(fewer.contains(limit));
            }
        }
        if fewer.contains(limit) {
            let i = choose|i: int|
                0 <= i < n && resolved(universe, (#[trigger] requests[i]).types) == limit;
            assert(more.contains(limit));
        }
        if limit == added {
            assert(resolved(universe, requests[n].types) == limit);
        }
    }
    assert(more =~= fewer.insert(added));
}

/// The tree of an import depends on which selectors are declared, not on
/// their order nor on how often one is written.
pub proof fn lemma_import_tree_ignores_order(
    universe: &TypeUniverse,
    foundation: bool,
    a: Seq<DeclarationView>,
    b: Seq<DeclarationView>,
)
    requires
        forall|types: SelectorView| holds(a, types) <==> holds(b, types),
    ensures
        import_tree(universe, foundation, a) == import_tree(universe, foundation, b),
{
    let x = requests(foundation, a);
    let y = requests(foundation, b);
    lemma_requests_agree(universe, foundation, a, b);
    lemma_requests_agree(universe, foundation, b, a);
    assert(resolved_requests(universe, x, x.len() as int) =~= resolved_requests(
        universe,
        y,
        y.len() as int,
    ));
}

/// What one list of declarations asks for, resolved, is among what any
/// other list with the same selectors asks for.
proof fn lemma_requests_agree(
    universe: &TypeUniverse,
    foundation: bool,
    a: Seq<DeclarationView>,
    b: Seq<DeclarationView>,
)
    requires
        forall|types: SelectorView| holds(a, types) <==> holds(b, types),
    ensures
        resolved_requests(
            universe,
            requests(foundation, a),
            requests(foundation, a).len() as int,
        ).subset_of(
            resolved_requests(
                universe,
                requests(foundation, b),
                requests(foundation, b).len() as int,
            ),
        ),
{
    let x = requests(foundation, a);
    let y = requests(foundation, b);
    let offset: int = if foundation {
        4
    } else {
        0
    };
    assert forall|limit: SelectorView|
        resolved_requests(universe, x, x.len() as int).contains(limit) implies resolved_requests(
        universe,
        y,
        y.len() as int,
    ).contains(limit) by {
        let i = choose|i: int|
            0 <= i < x.len() && resolved(universe, (#[trigger] x[i]).types) == limit;
        if i < offset {
            assert(y[i] == x[i]);
        } else {
            assert(x[i].types == a[i - offset].types);
            assert(holds(a, x[i].types));
            assert(holds(b, x[i].types));
            let j = choose|j: int| 0 <= j < b.len() && (#[trigger] b[j]).types == x[i].types;
            assert(y[offset + j].types == b[j].types);
        }
    }
}

} // verus!
