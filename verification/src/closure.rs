//! From selectors to the closed set of required types.

use crate::selector::{NamespaceTypes, SelectorView};
use crate::text::str_eq;
use crate::universe::TypeUniverse;
use vstd::prelude::*;
use vstd::string::*;

verus! {

/// The set that a vector of flags stands for: the positions that hold
/// `true`.
pub open spec fn flagged(flags: Seq<bool>) -> Set<int> {
    Set::new(|t: int| 0 <= t < flags.len() && flags[t])
}

/// The number of positions of `flags` that hold `false`.
pub open spec fn count_clear(flags: Seq<bool>) -> nat
    decreases flags.len(),
{
    if flags.len() == 0 {
        0
    } else {
        count_clear(flags.drop_last()) + if flags.last() {
            0nat
        } else {
            1nat
        }
    }
}

/// Setting a flag that was clear leaves one clear flag fewer.
proof fn lemma_count_clear_set(flags: Seq<bool>, i: int)
    requires
        0 <= i < flags.len(),
        !flags[i],
    ensures
        count_clear(flags.update(i, true)) + 1 == count_clear(flags),
    decreases flags.len(),
{
    let next = flags.update(i, true);
    if i == flags.len() - 1 {
        assert(next.drop_last() == flags.drop_last());
    } else {
        assert(next.drop_last() == flags.drop_last().update(i, true));
        lemma_count_clear_set(flags.drop_last(), i);
    }
}

/// A chain of types of the universe, each depending directly on the next.
pub open spec fn is_path(universe: &TypeUniverse, path: Seq<int>) -> bool {
    &&& path.len() > 0
    &&& forall|i: int| 0 <= i < path.len() ==> universe.has(#[trigger] path[i])
    &&& forall|i: int|
        0 <= i < path.len() - 1 ==> universe.depends(#[trigger] path[i], path[i + 1])
}

/// Whether a chain of dependencies leads from one of `roots` to `t`. A
/// root reaches itself.
pub open spec fn reaches(universe: &TypeUniverse, roots: Set<int>, t: int) -> bool {
    exists|path: Seq<int>|
        #[trigger] is_path(universe, path) && roots.contains(path[0]) && path.last() == t
}

/// The closure of `roots`: every type that a root reaches.
pub open spec fn closure(universe: &TypeUniverse, roots: Set<int>) -> Set<int> {
    Set::new(|t: int| reaches(universe, roots, t))
}

/// Whether a set of types holds, with each type, all that the type
/// directly depends on.
pub open spec fn is_closed(universe: &TypeUniverse, types: Set<int>) -> bool {
    forall|t: int, d: int| types.contains(t) && universe.depends(t, d) ==> types.contains(d)
}

/// A root reaches itself.
pub proof fn lemma_root_reaches(universe: &TypeUniverse, roots: Set<int>, t: int)
    requires
        universe.has(t),
        roots.contains(t),
    ensures
        reaches(universe, roots, t),
{
    let path = seq![t];
    assert(is_path(universe, path));
    assert(path[0] == t && path.last() == t);
}

/// What a reached type depends on is reached as well.
pub proof fn lemma_reaches_step(universe: &TypeUniverse, roots: Set<int>, t: int, d: int)
    requires
        universe.wf(),
        reaches(universe, roots, t),
        universe.depends(t, d),
    ensures
        reaches(universe, roots, d),
{
    let path = choose|path: Seq<int>|
        #[trigger] is_path(universe, path) && roots.contains(path[0]) && path.last() == t;
    let longer = path.push(d);
    assert(universe.has(d));
    assert forall|i: int| 0 <= i < longer.len() - 1 implies universe.depends(
        #[trigger] longer[i],
        longer[i + 1],
    ) by {
        if i < path.len() - 1 {
            assert(longer[i] == path[i]);
            assert(longer[i + 1] == path[i + 1]);
        }
    }
    assert(is_path(universe, longer));
    assert(longer[0] == path[0]);
    assert(longer.last() == d);
}

/// A closed set that holds the roots holds all that the roots reach.
pub proof fn lemma_closed_holds_reached(
    universe: &TypeUniverse,
    roots: Set<int>,
    types: Set<int>,
    path: Seq<int>,
)
    requires
        is_path(universe, path),
        roots.contains(path[0]),
        forall|r: int| roots.contains(r) && universe.has(r) ==> types.contains(r),
        is_closed(universe, types),
    ensures
        types.contains(path.last()),
    decreases path.len(),
{
    if path.len() > 1 {
        let shorter = path.drop_last();
        assert(is_path(universe, shorter)) by {
            assert forall|i: int| 0 <= i < shorter.len() - 1 implies universe.depends(
                #[trigger] shorter[i],
                shorter[i + 1],
            ) by {
                assert(shorter[i] == path[i]);
                assert(shorter[i + 1] == path[i + 1]);
            }
            assert forall|i: int| 0 <= i < shorter.len() implies universe.has(
                #[trigger] shorter[i],
            ) by {
                assert(shorter[i] == path[i]);
            }
        }
        assert(shorter[0] == path[0]);
        lemma_closed_holds_reached(universe, roots, types, shorter);
        let last = path.len() - 1;
        assert(shorter.last() == path[last - 1]);
        assert(universe.depends(path[last - 1], path[last - 1 + 1]));
    } else {
        assert(universe.has(path[0]));
    }
}

/// The types that the roots reach, one flag for each type of the
/// universe.
pub fn close_over(universe: &TypeUniverse, roots: &Vec<bool>) -> (members: Vec<bool>)
    requires
        universe.wf(),
        roots@.len() == universe.size(),
    ensures
        members@.len() == universe.size(),
        flagged(members@) == closure(universe, flagged(roots@)),
{
    let n: usize = universe.types.len();
    let ghost root_set = flagged(roots@);
    let mut members: Vec<bool> = Vec::new();
    let mut pending: Vec<usize> = Vec::new();
    let mut r: usize = 0;
    while r < n
        invariant
            n == universe.size(),
            roots@.len() == n,
            r <= n,
            members@.len() == r,
            forall|t: int| 0 <= t < r ==> members@[t] == roots@[t],
            forall|k: int|
                0 <= k < pending@.len() ==> (#[trigger] pending@[k]) < r
                    && members@[pending@[k] as int],
            forall|t: usize| t < r && members@[t as int] ==> pending@.contains(t),
        decreases n - r,
    {
        let ghost members_old = members@;
        let ghost pending_old = pending@;
        members.push(roots[r]);
        if roots[r] {
            pending.push(r);
        }
        proof {
            assert forall|t: usize| t < r + 1 && members@[t as int] implies pending@.contains(
                t,
            ) by {
                if t < r {
                    assert(members_old[t as int]);
                    assert(pending_old.contains(t));
                    let k = choose|k: int| 0 <= k < pending_old.len() && pending_old[k] == t;
                    assert(pending@[k] == t);
                } else {
                    assert(pending@[pending@.len() - 1] == t);
                }
            }
        }
        r += 1;
    }
    proof {
        assert forall|t: int| 0 <= t < n && members@[t] implies reaches(
            universe,
            root_set,
            t,
        ) by {
            lemma_root_reaches(universe, root_set, t);
        }
    }
    while pending.len() > 0
        invariant
            universe.wf(),
            n == universe.size(),
            roots@.len() == n,
            members@.len() == n,
            root_set == flagged(roots@),
            forall|k: int|
                0 <= k < pending@.len() ==> (#[trigger] pending@[k]) < n
                    && members@[pending@[k] as int],
            forall|t: int| 0 <= t < n && members@[t] ==> reaches(universe, root_set, t),
            forall|t: int| 0 <= t < n && roots@[t] ==> members@[t],
            forall|t: usize, d: int|
                t < n && members@[t as int] && !pending@.contains(t) && universe.depends(
                    t as int,
                    d,
                ) ==> members@[d],
        decreases 2 * count_clear(members@) + pending@.len(),
    {
        let ghost before = 2 * count_clear(members@) + pending@.len();
        let ghost pending_before = pending@;
        let t: usize = pending.pop().unwrap();
        assert(pending_before == pending@.push(t));
        let dependencies = &universe.types[t].dependencies;
        let mut j: usize = 0;
        while j < dependencies.len()
            invariant
                universe.wf(),
                n == universe.size(),
                roots@.len() == n,
                members@.len() == n,
                root_set == flagged(roots@),
                t < n,
                members@[t as int],
                dependencies@ == universe.dependencies_of(t as int),
                j <= dependencies@.len(),
                forall|k: int|
                    0 <= k < pending@.len() ==> (#[trigger] pending@[k]) < n
                        && members@[pending@[k] as int],
                forall|s: int| 0 <= s < n && members@[s] ==> reaches(universe, root_set, s),
                forall|s: int| 0 <= s < n && roots@[s] ==> members@[s],
                forall|s: usize, d: int|
                    s < n && s != t && members@[s as int] && !pending@.contains(s)
                        && universe.depends(s as int, d) ==> members@[d],
                forall|i: int| 0 <= i < j ==> members@[#[trigger] dependencies@[i] as int],
                2 * count_clear(members@) + pending@.len() < before,
            decreases dependencies.len() - j,
        {
            let d: usize = dependencies[j];
            assert(universe.has(universe.dependencies_of(t as int)[j as int] as int));
            if !members[d] {
                let ghost members_before = members@;
                let ghost pending_old = pending@;
                members.set(d, true);
                pending.push(d);
                proof {
                    lemma_count_clear_set(members_before, d as int);
                    assert(universe.depends(t as int, d as int));
                    lemma_reaches_step(universe, root_set, t as int, d as int);
                    assert forall|s: usize, e: int|
                        s < n && s != t && members@[s as int] && !pending@.contains(s)
                            && universe.depends(s as int, e) implies members@[e] by {
                        assert(pending@[pending@.len() - 1] == d);
                        assert(s != d);
                        assert(members_before[s as int]);
                        if pending_old.contains(s) {
                            let k = choose|k: int|
                                0 <= k < pending_old.len() && pending_old[k] == s;
                            assert(pending@[k] == s);
                        }
                        assert(members_before[e]);
                    }
                }
            }
            j += 1;
        }
        proof {
            assert forall|s: usize, d: int|
                s < n && members@[s as int] && !pending@.contains(s) && universe.depends(
                    s as int,
                    d,
                ) implies members@[d] by {
                if s == t {
                    let i = choose|i: int|
                        0 <= i < universe.dependencies_of(t as int).len()
                            && #[trigger] universe.dependencies_of(t as int)[i] == d;
                    assert(members@[dependencies@[i] as int]);
                }
            }
        }
    }
    proof {
        let types = flagged(members@);
        assert(is_closed(universe, types)) by {
            assert forall|t: int, d: int|
                types.contains(t) && universe.depends(t, d) implies types.contains(d) by {
                assert(!pending@.contains(t as usize));
                assert(universe.has(d));
                assert(members@[d]);
            }
        }
        assert forall|t: int| closure(universe, root_set).contains(t) implies types.contains(
            t,
        ) by {
            let path = choose|path: Seq<int>|
                #[trigger] is_path(universe, path) && root_set.contains(path[0]) && path.last()
                    == t;
            lemma_closed_holds_reached(universe, root_set, types, path);
        }
        assert(types =~= closure(universe, root_set));
    }
    members
}

/// The closure holds every root that is a type of the universe.
pub proof fn lemma_closure_holds_roots(universe: &TypeUniverse, roots: Set<int>)
    ensures
        forall|t: int|
            roots.contains(t) && universe.has(t) ==> closure(universe, roots).contains(t),
{
    assert forall|t: int| roots.contains(t) && universe.has(t) implies closure(
        universe,
        roots,
    ).contains(t) by {
        lemma_root_reaches(universe, roots, t);
    }
}

/// The closure is closed: with each type it holds all that the type
/// directly depends on.
pub proof fn lemma_closure_closed(universe: &TypeUniverse, roots: Set<int>)
    requires
        universe.wf(),
    ensures
        is_closed(universe, closure(universe, roots)),
{
    assert forall|t: int, d: int|
        closure(universe, roots).contains(t) && universe.depends(t, d) implies closure(
        universe,
        roots,
    ).contains(d) by {
        lemma_reaches_step(universe, roots, t, d);
    }
}

/// The closure is the least closed set that holds the roots: any other
/// holds the whole closure.
pub proof fn lemma_closure_least(universe: &TypeUniverse, roots: Set<int>, types: Set<int>)
    requires
        forall|r: int| roots.contains(r) && universe.has(r) ==> types.contains(r),
        is_closed(universe, types),
    ensures
        closure(universe, roots).subset_of(types),
{
    assert forall|t: int| closure(universe, roots).contains(t) implies types.contains(t) by {
        let path = choose|path: Seq<int>|
            #[trigger] is_path(universe, path) && roots.contains(path[0]) && path.last() == t;
        lemma_closed_holds_reached(universe, roots, types, path);
    }
}

/// Closing a closure adds nothing.
pub proof fn lemma_closure_idempotent(universe: &TypeUniverse, roots: Set<int>)
    requires
        universe.wf(),
    ensures
        closure(universe, closure(universe, roots)) == closure(universe, roots),
{
    let once = closure(universe, roots);
    let twice = closure(universe, once);
    lemma_closure_closed(universe, roots);
    lemma_closure_least(universe, once, once);
    assert forall|t: int| once.contains(t) implies twice.contains(t) by {
        let path = choose|path: Seq<int>|
            #[trigger] is_path(universe, path) && roots.contains(path[0]) && path.last() == t;
        assert(universe.has(path[path.len() - 1]));
        lemma_root_reaches(universe, once, t);
    }
    assert(twice =~= once);
}

/// The selectors that a selection works with, each with the namespace as
/// the metadata writes it.
#[derive(Debug, Clone, PartialEq, Eq)]
pub struct TypeLimits {
    pub limits: Vec<NamespaceTypes>,
}

impl View for TypeLimits {
    type V = Set<SelectorView>;

    open spec fn view(&self) -> Set<SelectorView> {
        Set::new(
            |limit: SelectorView|
                exists|i: int|
                    0 <= i < self.limits@.len() && (#[trigger] self.limits@[i])@ == limit,
        )
    }
}

/// Whether the universe has a namespace that the rough namespace stands
/// for.
pub open spec fn is_known(universe: &TypeUniverse, rough: Seq<char>) -> bool {
    exists|t: int| universe.is_first_match(t, rough)
}

/// A selector with its rough namespace replaced by the namespace that it
/// stands for: that of the first type of the universe whose namespace, in
/// lowercase, is the rough one.
pub open spec fn resolved(universe: &TypeUniverse, rough: SelectorView) -> SelectorView {
    SelectorView {
        namespace: universe.namespace_of(
            choose|t: int| universe.is_first_match(t, rough.namespace),
        ),
        limit: rough.limit,
    }
}

/// Only one type is the first match of a rough namespace.
pub proof fn lemma_first_match_unique(universe: &TypeUniverse, rough: Seq<char>, t: int)
    requires
        universe.is_first_match(t, rough),
    ensures
        is_known(universe, rough),
        (choose|s: int| universe.is_first_match(s, rough)) == t,
{
    let s = choose|s: int| universe.is_first_match(s, rough);
    if s < t {
        assert(!universe.namespace_matches(s, rough));
    } else if t < s {
        assert(!universe.namespace_matches(t, rough));
    }
}

/// Whether one of the selectors takes type `t`: it names the namespace of
/// `t` and takes the name of `t`.
pub open spec fn selects(universe: &TypeUniverse, limits: Set<SelectorView>, t: int) -> bool {
    exists|limit: SelectorView|
        #[trigger] limits.contains(limit) && limit.namespace == universe.namespace_of(t)
            && limit.contains_type(universe.name_of(t))
}

/// The types that the selectors take.
pub open spec fn selected(universe: &TypeUniverse, limits: Set<SelectorView>) -> Set<int> {
    Set::new(|t: int| universe.has(t) && selects(universe, limits, t))
}

impl TypeLimits {
    /// No selector.
    pub fn new() -> (limits: Self)
        ensures
            limits@ == Set::<SelectorView>::empty(),
    {
        let limits = TypeLimits { limits: Vec::new() };
        assert(limits@ =~= Set::<SelectorView>::empty());
        limits
    }

    /// Takes a selector whose namespace is in rough form. The namespace
    /// of the universe that it stands for replaces the rough form; where
    /// the universe has none, the rough namespace comes back as the
    /// error and nothing changes.
    pub fn insert(&mut self, universe: &TypeUniverse, limit: NamespaceTypes) -> (result: Result<
        (),
        String,
    >)
        ensures
            match result {
                Ok(()) => {
                    &&& is_known(universe, limit@.namespace)
                    &&& final(self)@ == old(self)@.insert(resolved(universe, limit@))
                    &&& final(self).limits@.len() == old(self).limits@.len() + 1
                    &&& final(self).limits@.drop_last() == old(self).limits@
                    &&& final(self).limits@.last()@ == resolved(universe, limit@)
                },
                Err(namespace) => {
                    &&& namespace@ == limit@.namespace
                    &&& !is_known(universe, limit@.namespace)
                    &&& *final(self) == *old(self)
                },
            },
    {
        match universe.resolve_namespace(limit.namespace.as_str()) {
            Some(t) => {
                proof {
                    lemma_first_match_unique(universe, limit@.namespace, t as int);
                }
                let resolved = NamespaceTypes {
                    namespace: universe.types[t].namespace.clone(),
                    limit: limit.limit,
                };
                let ghost added = resolved@;
                let ghost before = self.limits@;
                self.limits.push(resolved);
                proof {
                    assert(self.limits@[before.len() as int]@ == added);
                    assert forall|v: SelectorView| old(self)@.insert(added).contains(
                        v,
                    ) implies self@.contains(v) by {
                        if v != added {
                            let i = choose|i: int|
                                0 <= i < before.len() && (#[trigger] before[i])@ == v;
                            assert(self.limits@[i]@ == v);
                        }
                    }
                    assert forall|v: SelectorView| self@.contains(v) implies old(self)@.insert(
                        added,
                    ).contains(v) by {
                        let i = choose|i: int|
                            0 <= i < self.limits@.len() && (#[trigger] self.limits@[i])@ == v;
                        if i < before.len() {
                            assert(before[i]@ == v);
                        }
                    }
                    assert(self@ =~= old(self)@.insert(added));
                    assert(self.limits@.drop_last() =~= before);
                }
                Ok(())
            },
            None => {
                proof {
                    assert forall|t: int| !universe.is_first_match(t, limit@.namespace) by {}
                }
                Err(limit.namespace)
            },
        }
    }

    /// Whether one of the selectors takes the type of this namespace and
    /// name.
    fn takes(&self, namespace: &str, name: &str) -> (found: bool)
        ensures
            found == exists|limit: SelectorView|
                #[trigger] self@.contains(limit) && limit.namespace == namespace@
                    && limit.contains_type(name@),
    {
        let mut i: usize = 0;
        while i < self.limits.len()
            invariant
                i <= self.limits@.len(),
                forall|k: int|
                    0 <= k < i ==> !((#[trigger] self.limits@[k])@.namespace == namespace@
                        && self.limits@[k]@.contains_type(name@)),
            decreases self.limits.len() - i,
        {
            if str_eq(self.limits[i].namespace.as_str(), namespace) && self.limits[i].contains_type(
                name,
            ) {
                assert(self@.contains(self.limits@[i as int]@));
                return true;
            }
            i += 1;
        }
        proof {
            assert forall|limit: SelectorView|
                #[trigger] self@.contains(limit) implies !(limit.namespace == namespace@
                && limit.contains_type(name@)) by {
                let k = choose|k: int|
                    0 <= k < self.limits@.len() && (#[trigger] self.limits@[k])@ == limit;
            }
        }
        false
    }

    /// The types that the selectors take, one flag for each type of the
    /// universe.
    pub fn select_roots(&self, universe: &TypeUniverse) -> (roots: Vec<bool>)
        ensures
            roots@.len() == universe.size(),
            flagged(roots@) == selected(universe, self@),
    {
        let mut roots: Vec<bool> = Vec::new();
        let mut t: usize = 0;
        while t < universe.types.len()
            invariant
                t <= universe.size(),
                roots@.len() == t,
                forall|s: int| 0 <= s < t ==> roots@[s] == selects(universe, self@, s),
            decreases universe.types.len() - t,
        {
            let found = self.takes(
                universe.types[t].namespace.as_str(),
                universe.types[t].name.as_str(),
            );
            roots.push(found);
            t += 1;
        }
        assert(flagged(roots@) =~= selected(universe, self@));
        roots
    }
}

} // verus!
