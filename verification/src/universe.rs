//! The type universe: what the metadata defines, as far as selection and
//! closure read it.

use crate::text::{lowercase_of_str, str_eq, str_lowercase};
use vstd::prelude::*;
use vstd::string::*;

verus! {

/// One type of the metadata: where it lives, and the types that its
/// definition refers to, each by its position in the universe.
#[derive(Debug, Clone, PartialEq, Eq)]
pub struct TypeEntry {
    pub namespace: String,
    pub name: String,
    pub dependencies: Vec<usize>,
}

/// Every type that the metadata defines, in the order of the metadata.
/// A type is known by its position in `types`.
#[derive(Debug, Clone, PartialEq, Eq)]
pub struct TypeUniverse {
    pub types: Vec<TypeEntry>,
}

impl TypeUniverse {
    /// The number of types.
    pub open spec fn size(&self) -> int {
        self.types@.len() as int
    }

    /// Whether `t` is a type of the universe.
    pub open spec fn has(&self, t: int) -> bool {
        0 <= t < self.size()
    }

    /// The namespace of type `t`.
    pub open spec fn namespace_of(&self, t: int) -> Seq<char> {
        self.types@[t].namespace@
    }

    /// The name of type `t`.
    pub open spec fn name_of(&self, t: int) -> Seq<char> {
        self.types@[t].name@
    }

    /// The types that type `t` refers to, in the order of its definition.
    pub open spec fn dependencies_of(&self, t: int) -> Seq<usize> {
        self.types@[t].dependencies@
    }

    /// Whether type `t` directly depends on type `d`.
    pub open spec fn depends(&self, t: int, d: int) -> bool {
        &&& self.has(t)
        &&& exists|j: int|
            0 <= j < self.dependencies_of(t).len() && #[trigger] self.dependencies_of(t)[j] == d
    }

    /// Every dependency is a type of the universe.
    pub open spec fn wf(&self) -> bool {
        forall|t: int, j: int|
            self.has(t) && 0 <= j < self.dependencies_of(t).len() ==> self.has(
                #[trigger] self.dependencies_of(t)[j] as int,
            )
    }

    /// Whether some type lives in this namespace.
    pub open spec fn has_namespace(&self, namespace: Seq<char>) -> bool {
        exists|t: int| self.has(t) && #[trigger] self.namespace_of(t) == namespace
    }

    /// Whether the namespace of type `t` has this rough form: its
    /// lowercase form is `rough`.
    pub open spec fn namespace_matches(&self, t: int, rough: Seq<char>) -> bool {
        str_lowercase(self.namespace_of(t)) == rough
    }

    /// Whether `t` is the first type whose namespace has the rough form
    /// `rough`.
    pub open spec fn is_first_match(&self, t: int, rough: Seq<char>) -> bool {
        &&& self.has(t)
        &&& self.namespace_matches(t, rough)
        &&& forall|s: int| 0 <= s < t ==> !#[trigger] self.namespace_matches(s, rough)
    }

    /// Checks that every dependency is a type of the universe.
    pub fn is_well_formed(&self) -> (ok: bool)
        ensures
            ok == self.wf(),
    {
        let n: usize = self.types.len();
        let mut t: usize = 0;
        while t < n
            invariant
                n == self.size(),
                t <= n,
                forall|s: int, j: int|
                    0 <= s < t && 0 <= j < self.dependencies_of(s).len() ==> self.has(
                        #[trigger] self.dependencies_of(s)[j] as int,
                    ),
            decreases n - t,
        {
            let dependencies = &self.types[t].dependencies;
            let mut j: usize = 0;
            while j < dependencies.len()
                invariant
                    n == self.size(),
                    t < n,
                    dependencies@ == self.dependencies_of(t as int),
                    j <= dependencies.len(),
                    forall|i: int| 0 <= i < j ==> self.has(#[trigger] dependencies@[i] as int),
                decreases dependencies.len() - j,
            {
                if dependencies[j] >= n {
                    assert(!self.has(self.dependencies_of(t as int)[j as int] as int));
                    return false;
                }
                j += 1;
            }
            t += 1;
        }
        true
    }

    /// Resolves a namespace and a name to the first type that has both,
    /// compared exactly.
    pub fn resolve(&self, namespace: &str, name: &str) -> (found: Option<usize>)
        ensures
            match found {
                Some(t) => {
                    &&& self.has(t as int)
                    &&& self.namespace_of(t as int) == namespace@
                    &&& self.name_of(t as int) == name@
                    &&& forall|s: int|
                        0 <= s < t ==> !(self.namespace_of(s) == namespace@ && self.name_of(s)
                            == name@)
                },
                None => forall|s: int|
                    self.has(s) ==> !(self.namespace_of(s) == namespace@ && self.name_of(s)
                        == name@),
            },
    {
        let mut t: usize = 0;
        while t < self.types.len()
            invariant
                t <= self.size(),
                forall|s: int|
                    0 <= s < t ==> !(self.namespace_of(s) == namespace@ && self.name_of(s)
                        == name@),
            decreases self.types.len() - t,
        {
            if str_eq(self.types[t].namespace.as_str(), namespace) && str_eq(
                self.types[t].name.as_str(),
                name,
            ) {
                return Some(t);
            }
            t += 1;
        }
        None
    }

    /// Finds the namespace that a rough namespace stands for: the first
    /// type is returned whose namespace, in lowercase, is `rough`.
    pub fn resolve_namespace(&self, rough: &str) -> (found: Option<usize>)
        ensures
            match found {
                Some(t) => self.is_first_match(t as int, rough@),
                None => forall|s: int| self.has(s) ==> !self.namespace_matches(s, rough@),
            },
    {
        let mut t: usize = 0;
        while t < self.types.len()
            invariant
                t <= self.size(),
                forall|s: int| 0 <= s < t ==> !self.namespace_matches(s, rough@),
            decreases self.types.len() - t,
        {
            let lowered = lowercase_of_str(self.types[t].namespace.as_str());
            if str_eq(lowered.as_str(), rough) {
                return Some(t);
            }
            t += 1;
        }
        None
    }
}

} // verus!
