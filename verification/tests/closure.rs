use winrt_import::closure::{close_over, TypeLimits};
use winrt_import::declarations::{DeclarationError, TypesDeclaration, TypesDeclarations};
use winrt_import::dependencies::Dependencies;
use winrt_import::grammar::parse_declaration_text;
use winrt_import::import::{ImportMacro, UnknownNamespace};
use winrt_import::selector::{
    NamespaceTypes, SelectorError, SelectorErrorKind, TypeLimit, UseTree,
};
use winrt_import::syntax::parse_use_trees;
use winrt_import::tree::{
    foundation_namespace, is_foundation_namespace, reexport_root, NamespaceTree, ReexportPatch,
    Reference,
};
use winrt_import::universe::{TypeEntry, TypeUniverse};

fn entry(namespace: &str, name: &str, dependencies: &[usize]) -> TypeEntry {
    TypeEntry {
        namespace: namespace.to_string(),
        name: name.to_string(),
        dependencies: dependencies.to_vec(),
    }
}

/// 0 Windows.Foundation.IStringable
/// 1 Windows.Foundation.Uri            -> 0, 2
/// 2 Windows.Foundation.Collections.IVectorView
/// 3 Windows.Foundation.Collections.PropertySet
/// 4 Windows.UI.Colors                 -> 5
/// 5 Windows.UI.Color
/// 6 Windows.Data.Xml.Dom.XmlDocument  -> 1, 7
/// 7 Windows.Data.Xml.Dom.IXmlNode     -> 6
/// 8 Windows.Foundation.Diagnostics.Log
/// 9 Windows.Foundation.Numerics.Vector2
fn universe() -> TypeUniverse {
    TypeUniverse {
        types: vec![
            entry("Windows.Foundation", "IStringable", &[]),
            entry("Windows.Foundation", "Uri", &[0, 2]),
            entry("Windows.Foundation.Collections", "IVectorView", &[]),
            entry("Windows.Foundation.Collections", "PropertySet", &[]),
            entry("Windows.UI", "Colors", &[5]),
            entry("Windows.UI", "Color", &[]),
            entry("Windows.Data.Xml.Dom", "XmlDocument", &[1, 7]),
            entry("Windows.Data.Xml.Dom", "IXmlNode", &[6]),
            entry("Windows.Foundation.Diagnostics", "Log", &[]),
            entry("Windows.Foundation.Numerics", "Vector2", &[]),
        ],
    }
}

fn all(namespace: &str) -> NamespaceTypes {
    NamespaceTypes { namespace: namespace.to_string(), limit: TypeLimit::All }
}

fn named(namespace: &str, names: &[&str]) -> NamespaceTypes {
    NamespaceTypes {
        namespace: namespace.to_string(),
        limit: TypeLimit::Named(names.iter().map(|n| n.to_string()).collect()),
    }
}

fn flags(n: usize, set: &[usize]) -> Vec<bool> {
    (0..n).map(|t| set.contains(&t)).collect()
}

fn members(tree: &NamespaceTree) -> Vec<usize> {
    (0..tree.members.len()).filter(|t| tree.contains(*t)).collect()
}

fn reexports(tree: &NamespaceTree) -> Vec<usize> {
    (0..tree.reexports.len()).filter(|t| tree.reexports[*t]).collect()
}

fn import(text: &str) -> ImportMacro {
    let declaration = parse_declaration_text(text).unwrap();
    ImportMacro::parse(&declaration, Dependencies::new()).unwrap()
}

#[test]
fn universe_is_well_formed() {
    assert!(universe().is_well_formed());
    assert!(TypeUniverse { types: vec![] }.is_well_formed());
    let broken = TypeUniverse { types: vec![entry("A", "B", &[0, 1])] };
    assert!(!broken.is_well_formed());
}

#[test]
fn universe_resolves_names_exactly() {
    let universe = universe();
    assert_eq!(universe.resolve("Windows.UI", "Color"), Some(5));
    assert_eq!(universe.resolve("Windows.UI", "color"), None);
    assert_eq!(universe.resolve("windows.ui", "Color"), None);
    assert_eq!(universe.resolve("Windows.Foundation", "Uri"), Some(1));
    assert_eq!(universe.resolve("", ""), None);
}

#[test]
fn universe_resolves_rough_namespaces() {
    let universe = universe();
    assert_eq!(universe.resolve_namespace("windows.foundation"), Some(0));
    assert_eq!(universe.resolve_namespace("windows.foundation.collections"), Some(2));
    assert_eq!(universe.resolve_namespace("windows.data.xml.dom"), Some(6));
    assert_eq!(universe.resolve_namespace("Windows.Foundation"), None);
    assert_eq!(universe.resolve_namespace("windows"), None);
}

#[test]
fn first_namespace_wins_where_two_differ_by_case_only() {
    let universe = TypeUniverse {
        types: vec![entry("Ab.C", "X", &[]), entry("aB.c", "Y", &[]), entry("AB.C", "Z", &[])],
    };
    let mut limits = TypeLimits::new();
    assert_eq!(limits.insert(&universe, all("ab.c")), Ok(()));
    assert_eq!(limits.limits, vec![all("Ab.C")]);
    assert_eq!(limits.select_roots(&universe), vec![true, false, false]);
}

#[test]
fn limits_take_the_namespace_of_the_universe() {
    let universe = universe();
    let mut limits = TypeLimits::new();
    assert_eq!(limits.insert(&universe, named("windows.ui", &["Colors", "Missing"])), Ok(()));
    assert_eq!(limits.limits, vec![named("Windows.UI", &["Colors", "Missing"])]);
    assert_eq!(limits.select_roots(&universe), flags(10, &[4]));
}

#[test]
fn limits_reject_an_unknown_namespace() {
    let universe = universe();
    let mut limits = TypeLimits::new();
    limits.insert(&universe, all("windows.ui")).unwrap();
    let before = limits.clone();
    assert_eq!(limits.insert(&universe, all("windows.nowhere")), Err("windows.nowhere".to_string()));
    assert_eq!(limits, before);
}

#[test]
fn closure_follows_dependencies() {
    let universe = universe();
    assert_eq!(close_over(&universe, &flags(10, &[4])), flags(10, &[4, 5]));
    assert_eq!(close_over(&universe, &flags(10, &[7])), flags(10, &[0, 1, 2, 6, 7]));
    assert_eq!(close_over(&universe, &flags(10, &[])), flags(10, &[]));
    assert_eq!(close_over(&universe, &flags(10, &[3, 5])), flags(10, &[3, 5]));
}

#[test]
fn closure_of_a_closure_is_the_closure() {
    let universe = universe();
    for roots in [vec![], vec![4], vec![6], vec![1, 4], vec![0, 1, 2, 3, 4, 5, 6, 7, 8, 9]] {
        let once = close_over(&universe, &flags(10, &roots));
        assert_eq!(close_over(&universe, &once), once);
    }
}

#[test]
fn closure_is_complete_and_minimal() {
    let universe = universe();
    for roots in [vec![4usize], vec![6], vec![1, 3], vec![9]] {
        let closed = close_over(&universe, &flags(10, &roots));
        for (t, inside) in closed.iter().enumerate() {
            if *inside {
                for d in &universe.types[t].dependencies {
                    assert!(closed[*d]);
                }
            }
        }
        // Minimal: taking any non-root out leaves a set that is not closed
        // or misses a root.
        for t in 0..10 {
            if closed[t] && !roots.contains(&t) {
                let referred = (0..10)
                    .any(|s| s != t && closed[s] && universe.types[s].dependencies.contains(&t));
                assert!(referred);
            }
        }
    }
}

#[test]
fn closure_handles_cycles_and_self_reference() {
    let universe = TypeUniverse {
        types: vec![entry("A", "X", &[1, 0]), entry("A", "Y", &[0, 1]), entry("A", "Z", &[2])],
    };
    assert!(universe.is_well_formed());
    assert_eq!(close_over(&universe, &vec![true, false, false]), vec![true, true, false]);
    assert_eq!(close_over(&universe, &vec![false, false, true]), vec![false, false, true]);
}

#[test]
fn tree_from_limits_is_the_closure_of_what_is_selected() {
    let universe = universe();
    let mut limits = TypeLimits::new();
    limits.insert(&universe, named("windows.data.xml.dom", &["IXmlNode"])).unwrap();
    let tree = NamespaceTree::from_limits(&universe, &limits);
    assert_eq!(members(&tree), vec![0, 1, 2, 6, 7]);
    assert_eq!(reexports(&tree), Vec::<usize>::new());
}

#[test]
fn foundation_namespaces() {
    assert_eq!(foundation_namespace(0), Some("Windows.Foundation"));
    assert_eq!(foundation_namespace(1), Some("Windows.Foundation.Collections"));
    assert_eq!(foundation_namespace(2), Some("Windows.Foundation.Diagnostics"));
    assert_eq!(foundation_namespace(3), Some("Windows.Foundation.Numerics"));
    assert_eq!(foundation_namespace(4), None);
    for i in 0..4 {
        assert!(is_foundation_namespace(foundation_namespace(i).unwrap()));
    }
    assert!(!is_foundation_namespace("Windows.Foundation.Metadata"));
    assert!(!is_foundation_namespace("windows.foundation"));
    assert!(!is_foundation_namespace("Windows.UI"));
    assert!(!is_foundation_namespace(""));
}

#[test]
fn pruning_with_foundation_included_changes_nothing() {
    let universe = universe();
    let mut limits = TypeLimits::new();
    limits.insert(&universe, all("windows.data.xml.dom")).unwrap();
    let tree = NamespaceTree::from_limits(&universe, &limits);
    assert_eq!(tree.clone().prune(&universe, true), tree);
}

#[test]
fn pruning_twice_is_pruning_once() {
    let universe = universe();
    for namespace in ["windows.data.xml.dom", "windows.ui", "windows.foundation"] {
        let mut limits = TypeLimits::new();
        limits.insert(&universe, all(namespace)).unwrap();
        let tree = NamespaceTree::from_limits(&universe, &limits);
        for foundation in [false, true] {
            let once = tree.clone().prune(&universe, foundation);
            let twice = once.clone().prune(&universe, foundation);
            assert_eq!(twice, once);
        }
    }
}

#[test]
fn remove_takes_out_one_namespace_only() {
    let universe = universe();
    let mut tree =
        NamespaceTree { members: flags(10, &[0, 1, 2, 3, 4, 6]), reexports: flags(10, &[5]) };
    tree.remove(&universe, "Windows.Foundation");
    assert_eq!(members(&tree), vec![2, 3, 4, 6]);
    assert_eq!(reexports(&tree), vec![5]);
    tree.remove(&universe, "Windows.Nowhere");
    assert_eq!(members(&tree), vec![2, 3, 4, 6]);
}

#[test]
fn reexport_marks_dangling_foundation_types_only() {
    let universe = universe();
    // Colors refers to Color, which is no member and no foundation type.
    let mut tree = NamespaceTree { members: flags(10, &[4, 6]), reexports: flags(10, &[3]) };
    tree.reexport(&universe);
    assert_eq!(members(&tree), vec![4, 6]);
    assert_eq!(reexports(&tree), vec![1]);
}

#[test]
fn foundation_exclusion_round_trip() {
    let universe = universe();
    let import = import("dependencies os types windows.data.xml.dom.XmlDocument");
    assert!(!import.foundation);
    let tree = import.to_tree(&universe).unwrap();
    // The foundation namespaces are gone.
    for t in 0..10 {
        if is_foundation_namespace(&universe.types[t].namespace) {
            assert!(!tree.contains(t));
        }
    }
    assert_eq!(members(&tree), vec![6, 7]);
    // The reference from XmlDocument to Uri goes through the re-export
    // root; what only Uri refers to is not kept.
    assert_eq!(reexports(&tree), vec![1]);
    assert_eq!(tree.resolve_reference(1), Reference::Reexport);
    assert_eq!(tree.resolve_reference(7), Reference::Member);
    assert_eq!(tree.resolve_reference(0), Reference::Unresolved);
    assert_eq!(tree.resolve_reference(2), Reference::Unresolved);
    assert_eq!(tree.resolve_reference(10), Reference::Unresolved);
    assert_eq!(reexport_root(), "::winrt::foundation");
    assert_eq!(
        tree.patches(&universe),
        vec![ReexportPatch { referrer: 6, dependency: 0, target: 1 }]
    );
}

#[test]
fn patches_stand_in_the_order_of_referrers_and_dependencies() {
    let universe = TypeUniverse {
        types: vec![
            entry("Windows.Foundation", "A", &[]),
            entry("Windows.Foundation.Numerics", "B", &[]),
            entry("N", "X", &[1, 3, 0, 1]),
            entry("N", "Y", &[0]),
            entry("Windows.Foundation", "Unused", &[]),
        ],
    };
    let import = import("dependencies os types n.*");
    let tree = import.to_tree(&universe).unwrap();
    assert_eq!(members(&tree), vec![2, 3]);
    assert_eq!(reexports(&tree), vec![0, 1]);
    assert_eq!(
        tree.patches(&universe),
        vec![
            ReexportPatch { referrer: 2, dependency: 0, target: 1 },
            ReexportPatch { referrer: 2, dependency: 2, target: 0 },
            ReexportPatch { referrer: 2, dependency: 3, target: 1 },
            ReexportPatch { referrer: 3, dependency: 0, target: 0 },
        ]
    );
    let whole = NamespaceTree::from_limits(&universe, &import.limits(&universe).unwrap());
    assert_eq!(whole.patches(&universe), vec![]);
}

#[test]
fn every_dependency_of_the_final_tree_is_member_or_reexport() {
    let universe = universe();
    for text in [
        "dependencies os types windows.data.xml.dom.*",
        "dependencies os types windows.ui.* windows.foundation.Uri",
        "dependencies os types foundation windows.ui.Colors",
        "dependencies os types windows.foundation.collections.*",
    ] {
        let tree = import(text).to_tree(&universe).unwrap();
        for t in members(&tree) {
            for d in &universe.types[t].dependencies {
                assert!(tree.resolve_reference(*d) != Reference::Unresolved);
                if tree.resolve_reference(*d) == Reference::Reexport {
                    assert!(is_foundation_namespace(&universe.types[*d].namespace));
                }
            }
        }
    }
}

#[test]
fn foundation_included_takes_every_foundation_type() {
    let universe = universe();
    let tree = import("dependencies os types foundation windows.ui.Colors").to_tree(&universe).unwrap();
    assert_eq!(members(&tree), vec![0, 1, 2, 3, 4, 5, 8, 9]);
    assert_eq!(reexports(&tree), Vec::<usize>::new());
}

#[test]
fn foundation_included_needs_every_foundation_namespace() {
    let mut universe = universe();
    universe.types.truncate(9);
    let result = import("dependencies os types foundation windows.ui.Colors").to_tree(&universe);
    assert_eq!(
        result,
        Err(UnknownNamespace { namespace: "windows.foundation.numerics".to_string(), syntax: None })
    );
}

#[test]
fn unknown_namespace_names_the_declared_path() {
    let universe = universe();
    let import = import("dependencies os types windows.ui.* windows.nowhere.* windows.a.*");
    let unknown = import.to_tree(&universe).unwrap_err();
    // The declarations stand in the order of their namespaces: `windows.a`
    // comes first, and was declared third.
    assert_eq!(unknown, UnknownNamespace { namespace: "windows.a".to_string(), syntax: Some(2) });
    assert_eq!(unknown.message(), "'windows.a' is not a known namespace");
    assert_eq!(import.limits(&universe), Err(unknown));
}

#[test]
fn same_input_same_tree() {
    let universe = universe();
    let text = "dependencies os types windows.ui.{Colors} windows.data.xml.dom.*";
    let first = import(text).to_tree(&universe).unwrap();
    let second = import(text).to_tree(&universe).unwrap();
    assert_eq!(first, second);
    let reordered = import("dependencies os types windows.data.xml.dom.* windows.ui.{Colors}");
    assert_eq!(reordered.to_tree(&universe).unwrap(), first);
}

#[test]
fn declarations_stand_in_the_order_of_their_namespaces() {
    let trees = parse_use_trees("b.X a.c.* b.* a.{Y} b.X a.c.*").unwrap();
    let declarations = TypesDeclarations::from_trees(&trees).unwrap();
    let found: Vec<(NamespaceTypes, usize)> =
        declarations.declarations.iter().map(|d| (d.types.clone(), d.syntax)).collect();
    assert_eq!(
        found,
        vec![
            (named("a", &["Y"]), 3),
            (all("a.c"), 1),
            (all("b"), 2),
            (named("b", &["X"]), 0),
        ]
    );
    assert_eq!(declarations.locate(&all("b")), (2, true));
    assert_eq!(declarations.locate(&named("b", &["W"])), (3, false));
    assert_eq!(declarations.locate(&named("b", &["X", "A"])), (4, false));
    assert_eq!(declarations.locate(&all("")), (0, false));
    assert!(declarations.contains(&all("b")));
    assert!(!declarations.contains(&all("a")));
}

#[test]
fn declaring_twice_keeps_the_first() {
    let mut declarations = TypesDeclarations::new();
    assert!(declarations.insert(TypesDeclaration { types: all("m"), syntax: 0 }));
    assert!(!declarations.insert(TypesDeclaration { types: all("m"), syntax: 1 }));
    assert!(declarations.insert(TypesDeclaration { types: named("m", &["X"]), syntax: 2 }));
    assert!(declarations.insert(TypesDeclaration { types: all("Z"), syntax: 3 }));
    assert!(declarations.insert(TypesDeclaration { types: all("ma"), syntax: 4 }));
    assert!(declarations.insert(TypesDeclaration { types: all(""), syntax: 5 }));
    assert!(declarations.insert(TypesDeclaration { types: named("m", &[]), syntax: 6 }));
    assert!(declarations.insert(TypesDeclaration { types: named("m", &["X", "A"]), syntax: 7 }));
    assert!(declarations.insert(TypesDeclaration { types: named("m", &["W", "Z"]), syntax: 8 }));
    assert!(!declarations.insert(TypesDeclaration { types: named("m", &["X"]), syntax: 9 }));
    let order: Vec<usize> = declarations.declarations.iter().map(|d| d.syntax).collect();
    assert_eq!(order, vec![5, 3, 0, 6, 8, 2, 7, 4]);
}

#[test]
fn selectors_are_ordered_by_namespace_and_then_by_limit() {
    let selectors = [
        all(""),
        all("a"),
        named("a", &[]),
        named("a", &["B"]),
        named("a", &["B", "A"]),
        named("a", &["C"]),
        all("a.b"),
        all("b"),
    ];
    for (i, a) in selectors.iter().enumerate() {
        for (j, b) in selectors.iter().enumerate() {
            assert_eq!(a.comes_before(b), i < j);
            assert_eq!(a.same_as(b), i == j);
        }
    }
}

#[test]
fn first_path_that_is_no_selector_is_reported() {
    let trees = parse_use_trees("a.B c.d e.F as G").unwrap();
    assert_eq!(
        TypesDeclarations::from_trees(&trees),
        Err(DeclarationError {
            syntax: 1,
            error: SelectorError { kind: SelectorErrorKind::ModuleInsteadOfType, item: None }
        })
    );
    let declaration = parse_declaration_text("dependencies os types a.{B, c.D}").unwrap();
    assert_eq!(
        ImportMacro::parse(&declaration, Dependencies::new()),
        Err(DeclarationError {
            syntax: 0,
            error: SelectorError { kind: SelectorErrorKind::NestedPath, item: Some(1) }
        })
    );
}

#[test]
fn try_from_keeps_the_position() {
    let tree = UseTree::Path { ident: "a".to_string(), tree: Box::new(UseTree::Glob) };
    assert_eq!(
        TypesDeclaration::try_from(&tree, 7),
        Ok(TypesDeclaration { types: all("a"), syntax: 7 })
    );
}

#[test]
fn import_keeps_what_it_is_given() {
    let declaration = parse_declaration_text("dependencies os types foundation a.*").unwrap();
    let mut dependencies = Dependencies::new();
    dependencies.insert("b.winmd".to_string());
    dependencies.insert("a.winmd".to_string());
    let import = ImportMacro::parse(&declaration, dependencies.clone()).unwrap();
    assert!(import.foundation);
    assert_eq!(import.dependencies, dependencies);
    assert_eq!(import.winmd_paths(), &vec!["a.winmd".to_string(), "b.winmd".to_string()]);
}

fn key(selector: &NamespaceTypes) -> (String, Option<Vec<String>>) {
    let limit = match &selector.limit {
        TypeLimit::All => None,
        TypeLimit::Named(names) => Some(names.clone()),
    };
    (selector.namespace.clone(), limit)
}

#[test]
fn declarations_agree_with_an_ordered_set() {
    let declared = [
        named("b", &["X"]),
        all("a.c"),
        named("a", &["é", "B"]),
        all("b"),
        named("a", &["Y"]),
        named("b", &["X"]),
        named("a", &["Y", ""]),
        named("B", &[]),
        all("a"),
        named("a", &["é"]),
        all("a.c"),
    ];
    let mut declarations = TypesDeclarations::new();
    let mut set = std::collections::BTreeSet::new();
    for (syntax, types) in declared.iter().enumerate() {
        let added = declarations.insert(TypesDeclaration { types: types.clone(), syntax });
        assert_eq!(added, set.insert(key(types)));
    }
    let ours: Vec<_> = declarations.declarations.iter().map(|d| key(&d.types)).collect();
    let theirs: Vec<_> = set.into_iter().collect();
    assert_eq!(ours, theirs);
    for a in &declared {
        for b in &declared {
            assert_eq!(a.comes_before(b), key(a) < key(b));
        }
    }
}
