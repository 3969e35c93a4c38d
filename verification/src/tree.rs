//! The namespace tree: the types to generate, and its pruning.

use crate::closure::{
    close_over, closure, flagged, lemma_closure_closed, reaches, selected, TypeLimits,
};
use crate::selector::SelectorView;
use crate::text::str_eq;
use crate::universe::TypeUniverse;
use vstd::prelude::*;
use vstd::string::*;

verus! {

/// Whether a namespace is one of the foundation namespaces, which can be
/// left out of the generated code as a whole.
pub open spec fn is_foundation(namespace: Seq<char>) -> bool {
    ||| namespace == "Windows.Foundation"@
    ||| namespace == "Windows.Foundation.Collections"@
    ||| namespace == "Windows.Foundation.Diagnostics"@
    ||| namespace == "Windows.Foundation.Numerics"@
}

/// Whether a namespace is one of the foundation namespaces.
pub fn is_foundation_namespace(namespace: &str) -> (found: bool)
    ensures
        found == is_foundation(namespace@),
{
    str_eq(namespace, "Windows.Foundation") || str_eq(namespace, "Windows.Foundation.Collections")
        || str_eq(namespace, "Windows.Foundation.Diagnostics") || str_eq(
        namespace,
        "Windows.Foundation.Numerics",
    )
}

/// The foundation namespaces, by position.
pub open spec fn foundation_name(i: int) -> Seq<char> {
    if i == 0 {
        "Windows.Foundation"@
    } else if i == 1 {
        "Windows.Foundation.Collections"@
    } else if i == 2 {
        "Windows.Foundation.Diagnostics"@
    } else {
        "Windows.Foundation.Numerics"@
    }
}

/// The foundation namespace at position `i`; there are four.
pub fn foundation_namespace(i: usize) -> (namespace: Option<&'static str>)
    ensures
        match namespace {
            Some(name) => i < 4 && name@ == foundation_name(i as int) && is_foundation(name@),
            None => i >= 4,
        },
{
    if i == 0 {
        Some("Windows.Foundation")
    } else if i == 1 {
        Some("Windows.Foundation.Collections")
    } else if i == 2 {
        Some("Windows.Foundation.Diagnostics")
    } else if i == 3 {
        Some("Windows.Foundation.Numerics")
    } else {
        None
    }
}

/// The path through which a reference to a type of a pruned namespace
/// resolves.
pub fn reexport_root() -> (path: &'static str)
    ensures
        path@ == "::winrt::foundation"@,
{
    "::winrt::foundation"
}

/// The types to generate, one flag for each type of the universe, and the
/// types that are left out but still referred to: those are reached
/// through the re-export root.
#[derive(Debug, Clone, PartialEq, Eq)]
pub struct NamespaceTree {
    pub members: Vec<bool>,
    pub reexports: Vec<bool>,
}

/// What a `NamespaceTree` stands for.
pub struct TreeView {
    pub members: Set<int>,
    pub reexports: Set<int>,
}

impl View for NamespaceTree {
    type V = TreeView;

    open spec fn view(&self) -> TreeView {
        TreeView { members: flagged(self.members@), reexports: flagged(self.reexports@) }
    }
}

/// The types of `members` with the types of namespace `namespace` taken
/// out.
pub open spec fn without_namespace(
    universe: &TypeUniverse,
    members: Set<int>,
    namespace: Seq<char>,
) -> Set<int> {
    Set::new(|t: int| members.contains(t) && universe.namespace_of(t) != namespace)
}

/// The types of `members` that lie outside the foundation namespaces.
pub open spec fn kept(universe: &TypeUniverse, members: Set<int>) -> Set<int> {
    Set::new(|t: int| members.contains(t) && !is_foundation(universe.namespace_of(t)))
}

/// The types of the foundation namespaces that are no members, but that
/// some member directly depends on.
pub open spec fn dangling(universe: &TypeUniverse, members: Set<int>) -> Set<int> {
    Set::new(
        |d: int|
            universe.has(d) && !members.contains(d) && is_foundation(universe.namespace_of(d))
                && exists|t: int| members.contains(t) && #[trigger] universe.depends(t, d),
    )
}

/// The tree after pruning. Where the foundation namespaces are included,
/// it is the tree itself. Else their types leave the tree, and those that
/// a remaining type depends on become re-exports.
pub open spec fn pruned(universe: &TypeUniverse, tree: TreeView, foundation: bool) -> TreeView {
    if foundation {
        tree
    } else {
        TreeView {
            members: kept(universe, tree.members),
            reexports: dangling(universe, kept(universe, tree.members)),
        }
    }
}

/// The tree that a set of selectors yields before pruning: the closure of
/// the selected types, with no re-export.
pub open spec fn closed_tree(universe: &TypeUniverse, limits: Set<SelectorView>) -> TreeView {
    TreeView { members: closure(universe, selected(universe, limits)), reexports: Set::empty() }
}

/// The tree that a set of selectors yields: the closure of the selected
/// types, pruned.
pub open spec fn selection_tree(
    universe: &TypeUniverse,
    limits: Set<SelectorView>,
    foundation: bool,
) -> TreeView {
    pruned(universe, closed_tree(universe, limits), foundation)
}

/// A reference that pruning has rewritten: the member `referrer` names,
/// as dependency number `dependency` of its definition, the type `target`,
/// which is left out. The reference goes through the re-export root.
#[derive(Debug, Clone, Copy, PartialEq, Eq, Structural)]
pub struct ReexportPatch {
    pub referrer: usize,
    pub dependency: usize,
    pub target: usize,
}

/// Whether a patch records a reference from a member of the tree to one
/// of its re-exports.
pub open spec fn is_patch(universe: &TypeUniverse, tree: TreeView, patch: ReexportPatch) -> bool {
    &&& universe.has(patch.referrer as int)
    &&& tree.members.contains(patch.referrer as int)
    &&& patch.dependency < universe.dependencies_of(patch.referrer as int).len()
    &&& universe.dependencies_of(patch.referrer as int)[patch.dependency as int] == patch.target
    &&& tree.reexports.contains(patch.target as int)
}

/// Whether patch `a` stands before patch `b`: its referrer comes first in
/// the universe, or it is an earlier dependency of the same referrer.
pub open spec fn patch_before(a: ReexportPatch, b: ReexportPatch) -> bool {
    a.referrer < b.referrer || (a.referrer == b.referrer && a.dependency < b.dependency)
}

/// Whether a list holds every patch of the tree, each once and in order.
pub open spec fn is_patch_list(
    universe: &TypeUniverse,
    tree: TreeView,
    patches: Seq<ReexportPatch>,
) -> bool {
    &&& forall|k: int| 0 <= k < patches.len() ==> is_patch(universe, tree, #[trigger] patches[k])
    &&& forall|k: int, m: int|
        0 <= k < m < patches.len() ==> patch_before(#[trigger] patches[k], #[trigger] patches[m])
    &&& forall|patch: ReexportPatch|
        #[trigger] is_patch(universe, tree, patch) ==> patches.contains(patch)
}

/// How a reference to a type resolves in a tree.
#[derive(Debug, Clone, Copy, PartialEq, Eq, Structural)]
pub enum Reference {
    /// The type is generated: the reference names it where it stands.
    Member,
    /// The type is left out: the reference goes through the re-export
    /// root.
    Reexport,
    /// The tree knows nothing of the type.
    Unresolved,
}

impl NamespaceTree {
    /// Whether the tree has one flag of each kind for each type of the
    /// universe.
    pub open spec fn fits(&self, universe: &TypeUniverse) -> bool {
        &&& self.members@.len() == universe.size()
        &&& self.reexports@.len() == universe.size()
    }

    /// The closure of what the selectors take, with no re-export.
    pub fn from_limits(universe: &TypeUniverse, limits: &TypeLimits) -> (tree: Self)
        requires
            universe.wf(),
        ensures
            tree.fits(universe),
            tree@ == closed_tree(universe, limits@),
    {
        let roots = limits.select_roots(universe);
        let members = close_over(universe, &roots);
        let mut reexports: Vec<bool> = Vec::new();
        let mut t: usize = 0;
        while t < universe.types.len()
            invariant
                t <= universe.size(),
                reexports@.len() == t,
                forall|s: int| 0 <= s < t ==> !reexports@[s],
            decreases universe.types.len() - t,
        {
            reexports.push(false);
            t += 1;
        }
        assert(flagged(reexports@) =~= Set::<int>::empty());
        NamespaceTree { members, reexports }
    }

    /// Whether type `t` is generated.
    pub fn contains(&self, t: usize) -> (found: bool)
        ensures
            found == self@.members.contains(t as int),
    {
        t < self.members.len() && self.members[t]
    }

    /// How a reference to type `t` resolves.
    pub fn resolve_reference(&self, t: usize) -> (reference: Reference)
        ensures
            reference == if self@.members.contains(t as int) {
                Reference::Member
            } else if self@.reexports.contains(t as int) {
                Reference::Reexport
            } else {
                Reference::Unresolved
            },
    {
        if t < self.members.len() && self.members[t] {
            Reference::Member
        } else if t < self.reexports.len() && self.reexports[t] {
            Reference::Reexport
        } else {
            Reference::Unresolved
        }
    }

    /// The references that go through the re-export root, in the order of
    /// the referring types and of their dependencies.
    pub fn patches(&self, universe: &TypeUniverse) -> (patches: Vec<ReexportPatch>)
        requires
            self.fits(universe),
        ensures
            is_patch_list(universe, self@, patches@),
    {
        let n: usize = universe.types.len();
        let mut patches: Vec<ReexportPatch> = Vec::new();
        let mut t: usize = 0;
        while t < n
            invariant
                n == universe.size(),
                self.fits(universe),
                t <= n,
                forall|k: int|
                    0 <= k < patches@.len() ==> is_patch(universe, self@, #[trigger] patches@[k])
                        && patches@[k].referrer < t,
                forall|k: int, m: int|
                    0 <= k < m < patches@.len() ==> patch_before(
                        #[trigger] patches@[k],
                        #[trigger] patches@[m],
                    ),
                forall|patch: ReexportPatch|
                    #[trigger] is_patch(universe, self@, patch) && patch.referrer < t
                        ==> patches@.contains(patch),
            decreases n - t,
        {
            if self.members[t] {
                let dependencies = &universe.types[t].dependencies;
                let mut j: usize = 0;
                while j < dependencies.len()
                    invariant
                        n == universe.size(),
                        self.fits(universe),
                        t < n,
                        self@.members.contains(t as int),
                        dependencies@ == universe.dependencies_of(t as int),
                        j <= dependencies@.len(),
                        forall|k: int|
                            0 <= k < patches@.len() ==> is_patch(
                                universe,
                                self@,
                                #[trigger] patches@[k],
                            ) && patch_before(
                                patches@[k],
                                ReexportPatch { referrer: t, dependency: j, target: 0 },
                            ),
                        forall|k: int, m: int|
                            0 <= k < m < patches@.len() ==> patch_before(
                                #[trigger] patches@[k],
                                #[trigger] patches@[m],
                            ),
                        forall|patch: ReexportPatch|
                            #[trigger] is_patch(universe, self@, patch) && patch_before(
                                patch,
                                ReexportPatch { referrer: t, dependency: j, target: 0 },
                            ) ==> patches@.contains(patch),
                    decreases dependencies.len() - j,
                {
                    let d: usize = dependencies[j];
                    let ghost before = patches@;
                    if d < n && self.reexports[d] {
                        let added = ReexportPatch { referrer: t, dependency: j, target: d };
                        patches.push(added);
                        proof {
                            assert(is_patch(universe, self@, added));
                            assert forall|patch: ReexportPatch|
                                #[trigger] is_patch(universe, self@, patch) && patch_before(
                                    patch,
                                    ReexportPatch {
                                        referrer: t,
                                        dependency: (j + 1) as usize,
                                        target: 0,
                                    },
                                ) implies patches@.contains(patch) by {
                                if patch.referrer == t && patch.dependency == j {
                                    assert(patch == added);
                                    assert(patches@[before.len() as int] == patch);
                                } else {
                                    assert(before.contains(patch));
                                    let k = choose|k: int|
                                        0 <= k < before.len() && before[k] == patch;
                                    assert(patches@[k] == patch);
                                }
                            }
                        }
                    } else {
                        proof {
                            assert forall|patch: ReexportPatch|
                                #[trigger] is_patch(universe, self@, patch) && patch_before(
                                    patch,
                                    ReexportPatch {
                                        referrer: t,
                                        dependency: (j + 1) as usize,
                                        target: 0,
                                    },
                                ) implies patches@.contains(patch) by {
                                if patch.referrer == t && patch.dependency == j {
                                    assert(patch.target == d);
                                    assert(!self@.reexports.contains(d as int));
                                }
                            }
                        }
                    }
                    j += 1;
                }
                proof {
                    assert forall|patch: ReexportPatch|
                        #[trigger] is_patch(universe, self@, patch) && patch.referrer < t
                            + 1 implies patches@.contains(patch) by {
                        assert(patch_before(
                            patch,
                            ReexportPatch { referrer: t, dependency: j, target: 0 },
                        ));
                    }
                }
            }
            t += 1;
        }
        patches
    }

    /// Takes every type of one namespace out of the tree.
    pub fn remove(&mut self, universe: &TypeUniverse, namespace: &str)
        requires
            old(self).fits(universe),
        ensures
            final(self).fits(universe),
            final(self)@.members == without_namespace(universe, old(self)@.members, namespace@),
            final(self).reexports == old(self).reexports,
    {
        let n: usize = universe.types.len();
        let ghost original = self.members@;
        let mut t: usize = 0;
        while t < n
            invariant
                n == universe.size(),
                t <= n,
                original.len() == n,
                self.fits(universe),
                self.reexports == old(self).reexports,
                forall|s: int|
                    0 <= s < t ==> self.members@[s] == (original[s] && universe.namespace_of(s)
                        != namespace@),
                forall|s: int| t <= s < n ==> self.members@[s] == original[s],
            decreases n - t,
        {
            if self.members[t] && str_eq(universe.types[t].namespace.as_str(), namespace) {
                self.members.set(t, false);
            }
            t += 1;
        }
        assert(self@.members =~= without_namespace(universe, old(self)@.members, namespace@));
    }

    /// Marks as re-exports the foundation types that are left out of the
    /// tree while a member depends on them.
    pub fn reexport(&mut self, universe: &TypeUniverse)
        requires
            universe.wf(),
            old(self).fits(universe),
        ensures
            final(self).fits(universe),
            final(self).members == old(self).members,
            final(self)@.reexports == dangling(universe, old(self)@.members),
    {
        let n: usize = universe.types.len();
        let ghost members = self@.members;
        let mut marks: Vec<bool> = Vec::new();
        let mut t: usize = 0;
        while t < n
            invariant
                t <= n,
                marks@.len() == t,
                forall|s: int| 0 <= s < t ==> !marks@[s],
            decreases n - t,
        {
            marks.push(false);
            t += 1;
        }
        t = 0;
        while t < n
            invariant
                universe.wf(),
                n == universe.size(),
                t <= n,
                marks@.len() == n,
                self.fits(universe),
                *self == *old(self),
                members == self@.members,
                forall|d: int|
                    0 <= d < n && marks@[d] ==> dangling(universe, members).contains(d),
                forall|s: int, d: int|
                    0 <= s < t && members.contains(s) && universe.depends(s, d) && dangling(
                        universe,
                        members,
                    ).contains(d) ==> marks@[d],
            decreases n - t,
        {
            if self.members[t] {
                let dependencies = &universe.types[t].dependencies;
                let mut j: usize = 0;
                while j < dependencies.len()
                    invariant
                        universe.wf(),
                        n == universe.size(),
                        t < n,
                        marks@.len() == n,
                        self.fits(universe),
                        *self == *old(self),
                        members == self@.members,
                        members.contains(t as int),
                        dependencies@ == universe.dependencies_of(t as int),
                        j <= dependencies@.len(),
                        forall|d: int|
                            0 <= d < n && marks@[d] ==> dangling(universe, members).contains(d),
                        forall|s: int, d: int|
                            0 <= s < t && members.contains(s) && universe.depends(s, d)
                                && dangling(universe, members).contains(d) ==> marks@[d],
                        forall|i: int|
                            0 <= i < j && dangling(universe, members).contains(
                                #[trigger] dependencies@[i] as int,
                            ) ==> marks@[dependencies@[i] as int],
                    decreases dependencies.len() - j,
                {
                    let d: usize = dependencies[j];
                    assert(universe.has(universe.dependencies_of(t as int)[j as int] as int));
                    if !self.members[d] && is_foundation_namespace(
                        universe.types[d].namespace.as_str(),
                    ) {
                        assert(universe.depends(t as int, d as int));
                        marks.set(d, true);
                    }
                    j += 1;
                }
                proof {
                    assert forall|d: int|
                        universe.depends(t as int, d) && dangling(universe, members).contains(
                            d,
                        ) implies marks@[d] by {
                        let i = choose|i: int|
                            0 <= i < universe.dependencies_of(t as int).len()
                                && #[trigger] universe.dependencies_of(t as int)[i] == d;
                        assert(dependencies@[i] as int == d);
                    }
                }
            }
            t += 1;
        }
        self.reexports = marks;
        proof {
            assert forall|d: int| dangling(universe, members).contains(d) implies flagged(
                marks@,
            ).contains(d) by {
                let s = choose|s: int| members.contains(s) && #[trigger] universe.depends(s, d);
                assert(marks@[d]);
            }
            assert(self@.reexports =~= dangling(universe, members));
        }
    }

    /// Prunes the tree. Where the foundation namespaces are included, the
    /// tree stays as it is. Else every foundation namespace leaves the
    /// tree first, and then the references that this has left dangling
    /// become re-exports.
    pub fn prune(self, universe: &TypeUniverse, foundation: bool) -> (tree: Self)
        requires
            universe.wf(),
            self.fits(universe),
        ensures
            tree.fits(universe),
            tree@ == pruned(universe, self@, foundation),
    {
        if foundation {
            return self;
        }
        let mut tree = self;
        tree.remove(universe, "Windows.Foundation");
        tree.remove(universe, "Windows.Foundation.Collections");
        tree.remove(universe, "Windows.Foundation.Diagnostics");
        tree.remove(universe, "Windows.Foundation.Numerics");
        assert(tree@.members =~= kept(universe, self@.members));
        tree.reexport(universe);
        tree
    }
}

/// Every type of the final tree has all that it directly depends on in
/// the tree too, or, where the foundation namespaces are left out, as a
/// re-export from a foundation namespace. No dependency is dropped.
pub proof fn lemma_selection_tree_complete(
    universe: &TypeUniverse,
    limits: Set<SelectorView>,
    foundation: bool,
    t: int,
    d: int,
)
    requires
        universe.wf(),
        selection_tree(universe, limits, foundation).members.contains(t),
        universe.depends(t, d),
    ensures
        selection_tree(universe, limits, foundation).members.contains(d) || (!foundation
            && is_foundation(universe.namespace_of(d)) && selection_tree(
            universe,
            limits,
            foundation,
        ).reexports.contains(d)),
{
    let roots = selected(universe, limits);
    lemma_closure_closed(universe, roots);
    assert(closure(universe, roots).contains(t));
    assert(closure(universe, roots).contains(d));
}

/// Every type of the final tree is selected, or a chain of dependencies
/// leads to it from a selected type.
pub proof fn lemma_selection_tree_minimal(
    universe: &TypeUniverse,
    limits: Set<SelectorView>,
    foundation: bool,
    t: int,
)
    requires
        selection_tree(universe, limits, foundation).members.contains(t),
    ensures
        reaches(universe, selected(universe, limits), t),
{
}

/// No type of a foundation namespace is in a tree that was pruned with
/// the foundation namespaces left out, and every re-export is such a type.
pub proof fn lemma_pruned_has_no_foundation(universe: &TypeUniverse, tree: TreeView, t: int)
    ensures
        pruned(universe, tree, false).members.contains(t) ==> !is_foundation(
            universe.namespace_of(t),
        ),
        pruned(universe, tree, false).reexports.contains(t) ==> is_foundation(
            universe.namespace_of(t),
        ),
{
}

/// The order in which two namespaces leave a tree does not matter.
pub proof fn lemma_removal_commutes(
    universe: &TypeUniverse,
    members: Set<int>,
    a: Seq<char>,
    b: Seq<char>,
)
    ensures
        without_namespace(universe, without_namespace(universe, members, a), b)
            == without_namespace(universe, without_namespace(universe, members, b), a),
{
    assert(without_namespace(universe, without_namespace(universe, members, a), b)
        =~= without_namespace(universe, without_namespace(universe, members, b), a));
}

/// What is kept is what is left when the four foundation namespaces have
/// left the tree, one after the other.
pub proof fn lemma_kept_is_removal(universe: &TypeUniverse, members: Set<int>)
    ensures
        kept(universe, members) == without_namespace(
            universe,
            without_namespace(
                universe,
                without_namespace(
                    universe,
                    without_namespace(universe, members, foundation_name(0)),
                    foundation_name(1),
                ),
                foundation_name(2),
            ),
            foundation_name(3),
        ),
{
    assert(kept(universe, members) =~= without_namespace(
        universe,
        without_namespace(
            universe,
            without_namespace(
                universe,
                without_namespace(universe, members, foundation_name(0)),
                foundation_name(1),
            ),
            foundation_name(2),
        ),
        foundation_name(3),
    ));
}

/// Pruning a pruned tree changes nothing.
pub proof fn lemma_prune_idempotent(universe: &TypeUniverse, tree: TreeView, foundation: bool)
    ensures
        pruned(universe, pruned(universe, tree, foundation), foundation) == pruned(
            universe,
            tree,
            foundation,
        ),
{
    if !foundation {
        let once = pruned(universe, tree, foundation);
        let twice = pruned(universe, once, foundation);
        assert(twice.members =~= once.members);
        assert(twice.reexports =~= once.reexports);
    }
}

/// A tree is determined by what it stands for: two trees over one
/// universe with the same members and the same re-exports hold the same
/// flags.
pub proof fn lemma_tree_is_determined(universe: &TypeUniverse, a: NamespaceTree, b: NamespaceTree)
    requires
        a.fits(universe),
        b.fits(universe),
        a@ == b@,
    ensures
        a.members@ == b.members@,
        a.reexports@ == b.reexports@,
{
    assert forall|t: int| 0 <= t < universe.size() implies a.members@[t] == b.members@[t] by {
        assert(a@.members == b@.members);
        assert(flagged(a.members@).contains(t) == a.members@[t]);
        assert(flagged(b.members@).contains(t) == b.members@[t]);
    }
    assert forall|t: int| 0 <= t < universe.size() implies a.reexports@[t] == b.reexports@[t] by {
        assert(a@.reexports == b@.reexports);
        assert(flagged(a.reexports@).contains(t) == a.reexports@[t]);
        assert(flagged(b.reexports@).contains(t) == b.reexports@[t]);
    }
    assert(a.members@ =~= b.members@);
    assert(a.reexports@ =~= b.reexports@);
}

} // verus!
