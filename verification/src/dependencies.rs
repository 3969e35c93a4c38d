//! From declared packages to the set of metadata files.

use crate::names::{is_position, SortedNames};
use crate::text::starts_with;
use vstd::prelude::*;
use vstd::string::*;

verus! {

/// Why a declared package cannot be resolved.
#[derive(Debug, Clone, Copy, PartialEq, Eq, Structural)]
pub enum DependencyErrorKind {
    /// No directory is named after the package.
    MissingDependency,
    /// Several directories are named after the package: several versions
    /// stand side by side, and none is picked.
    AmbiguousDependency,
}

/// A declared package that cannot be resolved: the reason, and the
/// position of the package among the declared ones.
#[derive(Debug, Clone, Copy, PartialEq, Eq, Structural)]
pub struct DependencyError {
    pub kind: DependencyErrorKind,
    pub package: usize,
}

impl DependencyErrorKind {
    /// The text of the diagnostic for the package of this name.
    pub fn message(&self, package: &str) -> (text: String)
        ensures
            text@ == match *self {
                DependencyErrorKind::MissingDependency => "No directory for dependency '"@
                    + package@ + "'"@,
                DependencyErrorKind::AmbiguousDependency =>
                    "multiple nuget package versions found for '"@ + package@ + "'"@,
            },
    {
        let start = match self {
            DependencyErrorKind::MissingDependency => "No directory for dependency '",
            DependencyErrorKind::AmbiguousDependency =>
                "multiple nuget package versions found for '",
        };
        String::from_str(start).concat(package).concat("'")
    }
}

/// Whether a directory of this name holds the package of this name: the
/// name of the directory starts with the name of the package.
pub open spec fn holds_package(directory: Seq<char>, package: Seq<char>) -> bool {
    package.is_prefix_of(directory)
}

/// Whether directory `i` is the only one that holds the package.
pub open spec fn is_only_holder(directories: Seq<String>, package: Seq<char>, i: int) -> bool {
    &&& 0 <= i < directories.len()
    &&& holds_package(directories[i]@, package)
    &&& forall|j: int|
        0 <= j < directories.len() && j != i ==> !holds_package(
            (#[trigger] directories[j])@,
            package,
        )
}

/// What the directories of the package root say of one package: the one
/// directory that holds it, or why there is none to take.
pub open spec fn located(directories: Seq<String>, package: Seq<char>) -> Result<
    usize,
    DependencyErrorKind,
> {
    if exists|i: int| is_only_holder(directories, package, i) {
        Ok((choose|i: int| is_only_holder(directories, package, i)) as usize)
    } else if exists|i: int|
        0 <= i < directories.len() && holds_package((#[trigger] directories[i])@, package) {
        Err(DependencyErrorKind::AmbiguousDependency)
    } else {
        Err(DependencyErrorKind::MissingDependency)
    }
}

/// Finds the directory of a package among the names of the directories
/// of the package root.
pub fn locate_package(package: &str, directories: &Vec<String>) -> (result: Result<
    usize,
    DependencyErrorKind,
>)
    ensures
        result == located(directories@, package@),
{
    let mut found: Option<usize> = None;
    let mut i: usize = 0;
    while i < directories.len()
        invariant
            i <= directories@.len(),
            match found {
                Some(first) => {
                    &&& first < i
                    &&& holds_package(directories@[first as int]@, package@)
                    &&& forall|j: int|
                        0 <= j < i && j != first ==> !holds_package(
                            (#[trigger] directories@[j])@,
                            package@,
                        )
                },
                None => forall|j: int|
                    0 <= j < i ==> !holds_package((#[trigger] directories@[j])@, package@),
            },
        decreases directories.len() - i,
    {
        if starts_with(directories[i].as_str(), package) {
            match found {
                Some(first) => {
                    proof {
                        assert forall|k: int| !is_only_holder(directories@, package@, k) by {
                            if is_only_holder(directories@, package@, k) {
                                if k == first as int {
                                    assert(!holds_package(directories@[i as int]@, package@));
                                } else {
                                    assert(!holds_package(
                                        directories@[first as int]@,
                                        package@,
                                    ));
                                }
                            }
                        }
                    }
                    return Err(DependencyErrorKind::AmbiguousDependency);
                },
                None => {
                    found = Some(i);
                },
            }
        }
        i += 1;
    }
    match found {
        Some(first) => {
            proof {
                assert(is_only_holder(directories@, package@, first as int));
                let chosen = choose|k: int| is_only_holder(directories@, package@, k);
                assert(chosen == first as int);
            }
            Ok(first)
        },
        None => {
            proof {
                assert forall|k: int| !is_only_holder(directories@, package@, k) by {}
            }
            Err(DependencyErrorKind::MissingDependency)
        },
    }
}

/// What the directories say of a list of packages: the directory of each,
/// or the first package that has none to take.
pub open spec fn located_all(directories: Seq<String>, packages: Seq<String>) -> Result<
    Seq<usize>,
    DependencyError,
> {
    if exists|p: int| is_first_unresolved(directories, packages, p) {
        let p = choose|p: int| is_first_unresolved(directories, packages, p);
        Err(
            DependencyError {
                kind: located(directories, packages[p]@)->Err_0,
                package: p as usize,
            },
        )
    } else {
        Ok(Seq::new(packages.len(), |p: int| located(directories, packages[p]@)->Ok_0))
    }
}

/// Whether package `p` is the first that cannot be resolved.
pub open spec fn is_first_unresolved(
    directories: Seq<String>,
    packages: Seq<String>,
    p: int,
) -> bool {
    &&& 0 <= p < packages.len()
    &&& located(directories, packages[p]@) is Err
    &&& forall|q: int| 0 <= q < p ==> located(directories, (#[trigger] packages[q])@) is Ok
}

/// Finds the directory of every declared package. The first package
/// that is missing, or that has several directories, ends the search.
pub fn resolve_packages(packages: &Vec<String>, directories: &Vec<String>) -> (result: Result<
    Vec<usize>,
    DependencyError,
>)
    ensures
        match result {
            Ok(found) => located_all(directories@, packages@) == Ok::<Seq<usize>, DependencyError>(
                found@,
            ),
            Err(error) => located_all(directories@, packages@) == Err::<
                Seq<usize>,
                DependencyError,
            >(error),
        },
{
    let mut found: Vec<usize> = Vec::new();
    let mut p: usize = 0;
    while p < packages.len()
        invariant
            p <= packages@.len(),
            found@.len() == p,
            forall|q: int|
                0 <= q < p ==> located(directories@, (#[trigger] packages@[q])@) == Ok::<
                    usize,
                    DependencyErrorKind,
                >(found@[q]),
        decreases packages.len() - p,
    {
        match locate_package(packages[p].as_str(), directories) {
            Ok(directory) => {
                found.push(directory);
            },
            Err(kind) => {
                proof {
                    assert(is_first_unresolved(directories@, packages@, p as int));
                    let chosen = choose|q: int| is_first_unresolved(directories@, packages@, q);
                    assert(chosen == p as int);
                }
                return Err(DependencyError { kind, package: p });
            },
        }
        p += 1;
    }
    proof {
        assert forall|q: int| !is_first_unresolved(directories@, packages@, q) by {}
        assert(found@ =~= Seq::new(
            packages@.len(),
            |q: int| located(directories@, packages@[q]@)->Ok_0,
        ));
    }
    Ok(found)
}

/// The metadata files that a build depends on: a set of paths in
/// lexicographic order.
#[derive(Debug, Clone, PartialEq, Eq)]
pub struct Dependencies {
    pub paths: SortedNames,
}

impl View for Dependencies {
    type V = Seq<Seq<char>>;

    open spec fn view(&self) -> Seq<Seq<char>> {
        self.paths@
    }
}

impl Dependencies {
    /// Whether the paths are in order, each once.
    pub open spec fn wf(&self) -> bool {
        self.paths.wf()
    }

    /// No file.
    pub fn new() -> (dependencies: Self)
        ensures
            dependencies.wf(),
            dependencies@ == Seq::<Seq<char>>::empty(),
    {
        Dependencies { paths: SortedNames::new() }
    }

    /// Adds the path of one metadata file. Returns whether the path is
    /// new.
    pub fn insert(&mut self, path: String) -> (added: bool)
        requires
            old(self).wf(),
        ensures
            final(self).wf(),
            added == !old(self)@.contains(path@),
            final(self)@.to_set() == old(self)@.to_set().insert(path@),
            !added ==> final(self)@ == old(self)@,
            added ==> exists|position: int|
                #[trigger] is_position(old(self)@, path@, position) && final(self)@ == old(
                    self,
                )@.insert(position, path@),
    {
        let ghost before = self@;
        let ghost added = path@;
        let placed = self.paths.insert(path);
        assert(placed.1 ==> is_position(before, added, placed.0 as int) && self@ == before.insert(
            placed.0 as int,
            added,
        ));
        placed.1
    }

    /// Adds every path of a list.
    pub fn extend(&mut self, paths: Vec<String>)
        requires
            old(self).wf(),
        ensures
            final(self).wf(),
            final(self)@.to_set() == old(self)@.to_set().union(strings_set(paths@)),
    {
        let ghost given = paths@;
        let mut rest = paths;
        let ghost start = self@.to_set();
        while rest.len() > 0
            invariant
                self.wf(),
                rest@.len() <= given.len(),
                rest@ == given.subrange(0, rest@.len() as int),
                self@.to_set() == start.union(
                    strings_set(given.subrange(rest@.len() as int, given.len() as int)),
                ),
            decreases rest.len(),
        {
            let ghost before = self@.to_set();
            let ghost done = strings_set(given.subrange(rest@.len() as int, given.len() as int));
            let path = rest.pop().unwrap();
            self.insert(path);
            proof {
                let next = strings_set(given.subrange(rest@.len() as int, given.len() as int));
                let k = rest@.len() as int;
                assert(path == given[k]);
                assert forall|name: Seq<char>| next.contains(name) <==> done.insert(
                    path@,
                ).contains(name) by {
                    let wide = given.subrange(k, given.len() as int);
                    let narrow = given.subrange(k + 1, given.len() as int);
                    if next.contains(name) {
                        let i = choose|i: int| 0 <= i < wide.len() && (#[trigger] wide[i])@ == name;
                        if i > 0 {
                            assert(narrow[i - 1]@ == name);
                        }
                    }
                    if done.contains(name) {
                        let i = choose|i: int|
                            0 <= i < narrow.len() && (#[trigger] narrow[i])@ == name;
                        assert(wide[i + 1]@ == name);
                    }
                    if name == path@ {
                        assert(wide[0]@ == name);
                    }
                }
                assert(next =~= done.insert(path@));
                assert(self@.to_set() =~= start.union(next));
            }
        }
        proof {
            assert(given.subrange(0, given.len() as int) =~= given);
        }
    }

    /// The paths, in order.
    pub fn winmd_paths(&self) -> (paths: &Vec<String>)
        ensures
            paths == &self.paths.names,
    {
        &self.paths.names
    }
}

/// The set of the character sequences of a list of strings.
pub open spec fn strings_set(names: Seq<String>) -> Set<Seq<char>> {
    Set::new(
        |name: Seq<char>| exists|i: int| 0 <= i < names.len() && (#[trigger] names[i])@ == name,
    )
}

} // verus!
