use winrt_import::dependencies::{
    locate_package, resolve_packages, Dependencies, DependencyError, DependencyErrorKind,
};
use winrt_import::emit::{
    emission_plan, failure_message, formatter_warning, join_fragments, output_file_name,
    rerun_if_changed, start, step, EmitAction, EmitError, EmitEvent, EmitMode, EmitState,
    EmitStep, FormatterOutcome, NamespaceNode, Warning,
};
use winrt_import::names::SortedNames;
use winrt_import::text::{chars_less, starts_with, str_before, str_chars, str_eq};
use winrt_import::tree::NamespaceTree;
use winrt_import::universe::{TypeEntry, TypeUniverse};

fn strings(names: &[&str]) -> Vec<String> {
    names.iter().map(|n| n.to_string()).collect()
}

#[test]
fn one_directory_resolves() {
    assert_eq!(locate_package("Foo.Bar", &strings(&["Foo.Bar.1.2.3"])), Ok(0));
    assert_eq!(locate_package("Foo.Bar", &strings(&["Other.1.0", "Foo.Bar.1.2.3", "Foo"])), Ok(1));
    assert_eq!(locate_package("Foo.Bar", &strings(&["Foo.Bar"])), Ok(0));
}

#[test]
fn two_directories_are_ambiguous() {
    assert_eq!(
        locate_package("Foo.Bar", &strings(&["Foo.Bar.1.2.3", "Foo.Bar.2.0.0"])),
        Err(DependencyErrorKind::AmbiguousDependency)
    );
    assert_eq!(
        locate_package("Foo", &strings(&["Foo.1", "x", "Foo.Bar.2", "Foo.3"])),
        Err(DependencyErrorKind::AmbiguousDependency)
    );
    // Every directory starts with the empty name.
    assert_eq!(locate_package("", &strings(&["a", "b"])), Err(DependencyErrorKind::AmbiguousDependency));
}

#[test]
fn no_directory_is_missing() {
    assert_eq!(locate_package("Foo.Bar", &vec![]), Err(DependencyErrorKind::MissingDependency));
    assert_eq!(
        locate_package("Foo.Bar", &strings(&["Foo", "foo.bar.1.2.3", "Bar.Foo.Bar"])),
        Err(DependencyErrorKind::MissingDependency)
    );
}

#[test]
fn every_package_is_resolved_or_the_first_failure_reported() {
    let directories = strings(&["A.1", "B.1", "B.2", "C.1"]);
    assert_eq!(resolve_packages(&strings(&["C", "A"]), &directories), Ok(vec![3, 0]));
    assert_eq!(resolve_packages(&vec![], &directories), Ok(vec![]));
    assert_eq!(
        resolve_packages(&strings(&["A", "D", "B"]), &directories),
        Err(DependencyError { kind: DependencyErrorKind::MissingDependency, package: 1 })
    );
    assert_eq!(
        resolve_packages(&strings(&["A", "B", "D"]), &directories),
        Err(DependencyError { kind: DependencyErrorKind::AmbiguousDependency, package: 1 })
    );
}

#[test]
fn messages_of_dependency_errors() {
    assert_eq!(
        DependencyErrorKind::MissingDependency.message("Foo.Bar"),
        "No directory for dependency 'Foo.Bar'"
    );
    assert_eq!(
        DependencyErrorKind::AmbiguousDependency.message("Foo.Bar"),
        "multiple nuget package versions found for 'Foo.Bar'"
    );
}

#[test]
fn paths_are_kept_in_order_and_once() {
    let mut dependencies = Dependencies::new();
    assert!(dependencies.insert("b/x.winmd".to_string()));
    assert!(dependencies.insert("a/y.winmd".to_string()));
    assert!(!dependencies.insert("b/x.winmd".to_string()));
    assert!(dependencies.insert("a/x.winmd".to_string()));
    assert!(dependencies.insert("B.winmd".to_string()));
    assert_eq!(
        dependencies.winmd_paths(),
        &strings(&["B.winmd", "a/x.winmd", "a/y.winmd", "b/x.winmd"])
    );
}

#[test]
fn order_of_insertion_leaves_no_trace() {
    let paths = ["c", "a", "b", "a", "ab", ""];
    let mut forward = Dependencies::new();
    forward.extend(strings(&paths));
    let mut backward = Dependencies::new();
    for path in paths.iter().rev() {
        backward.insert(path.to_string());
    }
    assert_eq!(forward, backward);
    assert_eq!(forward.winmd_paths(), &strings(&["", "a", "ab", "b", "c"]));
}

#[test]
fn sorted_names_locate_and_insert() {
    let mut names = SortedNames::new();
    assert_eq!(names.len(), 0);
    assert_eq!(names.locate("m"), (0, false));
    assert_eq!(names.insert("m".to_string()), (0, true));
    assert_eq!(names.insert("z".to_string()), (1, true));
    assert_eq!(names.insert("a".to_string()), (0, true));
    assert_eq!(names.insert("m".to_string()), (1, false));
    assert_eq!(names.locate("n"), (2, false));
    assert_eq!(names.locate("z"), (2, true));
    assert!(names.contains("a"));
    assert!(!names.contains("b"));
    assert_eq!(names.names, strings(&["a", "m", "z"]));
    assert_eq!(names.len(), 3);
}

#[test]
fn strings_are_ordered_by_code_point() {
    assert!(str_before("", "a"));
    assert!(!str_before("", ""));
    assert!(!str_before("a", ""));
    assert!(str_before("a", "ab"));
    assert!(str_before("ab", "b"));
    assert!(str_before("B", "a"));
    assert!(!str_before("a", "B"));
    assert!(!str_before("abc", "abc"));
    assert!(str_before("z", "é"));
    assert!(chars_less(&vec!['a'], &vec!['a', 'a']));
    for (a, b) in [("", "a"), ("a", "B"), ("é", "z"), ("ab", "abc"), ("x", "x")] {
        assert_eq!(str_before(a, b), a < b);
        assert_eq!(str_before(b, a), b < a);
    }
}

#[test]
fn text_helpers() {
    assert_eq!(str_chars("aé!"), vec!['a', 'é', '!']);
    assert_eq!(str_chars(""), Vec::<char>::new());
    assert!(str_eq("ab", "ab"));
    assert!(!str_eq("ab", "ba"));
    assert!(starts_with("Foo.Bar.1", "Foo.Bar"));
    assert!(starts_with("Foo", "Foo"));
    assert!(starts_with("Foo", ""));
    assert!(!starts_with("Fo", "Foo"));
    assert!(!starts_with("xFoo", "Foo"));
}

fn entry(namespace: &str, name: &str, dependencies: &[usize]) -> TypeEntry {
    TypeEntry {
        namespace: namespace.to_string(),
        name: name.to_string(),
        dependencies: dependencies.to_vec(),
    }
}

#[test]
fn plan_orders_namespaces_and_keeps_the_order_of_types() {
    let universe = TypeUniverse {
        types: vec![
            entry("Windows.UI", "Colors", &[]),
            entry("Windows.Data", "Json", &[]),
            entry("Windows.UI", "Color", &[]),
            entry("Windows.Data", "Xml", &[]),
            entry("Windows.A", "Skipped", &[]),
            entry("Windows", "Root", &[]),
        ],
    };
    let tree = NamespaceTree {
        members: vec![true, true, true, true, false, true],
        reexports: vec![false; 6],
    };
    assert_eq!(
        emission_plan(&universe, &tree),
        vec![
            NamespaceNode { namespace: "Windows".to_string(), types: vec![5] },
            NamespaceNode { namespace: "Windows.Data".to_string(), types: vec![1, 3] },
            NamespaceNode { namespace: "Windows.UI".to_string(), types: vec![0, 2] },
        ]
    );
    let empty = NamespaceTree { members: vec![false; 6], reexports: vec![true; 6] };
    assert_eq!(emission_plan(&universe, &empty), vec![]);
}

#[test]
fn fragments_are_joined_in_order() {
    assert_eq!(join_fragments(&strings(&["pub mod a {", " struct X; ", "}"])), "pub mod a { struct X; }");
    assert_eq!(join_fragments(&vec![]), "");
    assert_eq!(join_fragments(&strings(&["", "x", ""])), "x");
}

#[test]
fn one_line_for_each_metadata_file() {
    assert_eq!(
        rerun_if_changed(&strings(&["a.winmd", "dir/b.winmd"])),
        strings(&["cargo:rerun-if-changed=a.winmd", "cargo:rerun-if-changed=dir/b.winmd"])
    );
    assert_eq!(rerun_if_changed(&vec![]), Vec::<String>::new());
}

#[test]
fn emission_in_place_runs_through_its_steps() {
    assert_eq!(output_file_name(), "winrt.rs");
    let mode = EmitMode::InPlace;
    let first = start(mode);
    assert_eq!(
        first,
        EmitStep { state: EmitState::Start { mode }, action: EmitAction::LookUpDirectory }
    );
    let located = step(first.state, EmitEvent::Directory { found: true });
    assert_eq!(
        located,
        EmitStep { state: EmitState::Located { mode }, action: EmitAction::CreateFile }
    );
    let created = step(located.state, EmitEvent::Create { created: true });
    assert_eq!(created, EmitStep { state: EmitState::Created, action: EmitAction::WriteText });
    let written = step(created.state, EmitEvent::Write { written: true });
    assert_eq!(written, EmitStep { state: EmitState::Written, action: EmitAction::RunFormatter });
    let outcome = FormatterOutcome::Exited { success: true, code: Some(0) };
    let finished = step(written.state, EmitEvent::Format { outcome });
    assert_eq!(
        finished,
        EmitStep { state: EmitState::Finished, action: EmitAction::Finish { warning: None } }
    );
}

#[test]
fn emission_through_the_pipe_runs_through_its_steps() {
    let mode = EmitMode::Piped;
    let first = start(mode);
    assert_eq!(
        first,
        EmitStep { state: EmitState::Start { mode }, action: EmitAction::LookUpDirectory }
    );
    let located = step(first.state, EmitEvent::Directory { found: true });
    assert_eq!(
        located,
        EmitStep { state: EmitState::Located { mode }, action: EmitAction::CreateFile }
    );
    let created = step(located.state, EmitEvent::Create { created: true });
    assert_eq!(
        created,
        EmitStep { state: EmitState::Piping, action: EmitAction::PipeThroughFormatter }
    );
    let outcome = FormatterOutcome::Exited { success: true, code: Some(0) };
    let finished = step(created.state, EmitEvent::Format { outcome });
    assert_eq!(
        finished,
        EmitStep { state: EmitState::Finished, action: EmitAction::Finish { warning: None } }
    );
}

#[test]
fn a_pipe_that_does_not_deliver_leaves_the_text_as_it_is() {
    for (outcome, warning) in [
        (FormatterOutcome::NotStarted, Warning::FormatterNotStarted),
        (
            FormatterOutcome::Exited { success: false, code: Some(3) },
            Warning::FormatterFailed { code: Some(3) },
        ),
    ] {
        let fallback = step(EmitState::Piping, EmitEvent::Format { outcome });
        assert_eq!(
            fallback,
            EmitStep { state: EmitState::Unformatted { warning }, action: EmitAction::WriteText }
        );
        assert_eq!(
            step(fallback.state, EmitEvent::Write { written: true }),
            EmitStep {
                state: EmitState::Finished,
                action: EmitAction::Finish { warning: Some(warning) }
            }
        );
        assert_eq!(
            step(fallback.state, EmitEvent::Write { written: false }),
            EmitStep {
                state: EmitState::Failed,
                action: EmitAction::Fail { error: EmitError::WriteFailed }
            }
        );
    }
}

#[test]
fn failures_before_the_text_is_written_are_fatal() {
    let failed = |error| EmitStep { state: EmitState::Failed, action: EmitAction::Fail { error } };
    for mode in [EmitMode::InPlace, EmitMode::Piped] {
        assert_eq!(
            step(EmitState::Start { mode }, EmitEvent::Directory { found: false }),
            failed(EmitError::NoOutputDirectory)
        );
        assert_eq!(
            step(EmitState::Located { mode }, EmitEvent::Create { created: false }),
            failed(EmitError::CreateFailed)
        );
    }
    assert_eq!(
        step(EmitState::Created, EmitEvent::Write { written: false }),
        failed(EmitError::WriteFailed)
    );
}

#[test]
fn formatter_failures_are_warnings() {
    let finish = |warning| EmitStep {
        state: EmitState::Finished,
        action: EmitAction::Finish { warning: Some(warning) },
    };
    assert_eq!(
        step(EmitState::Written, EmitEvent::Format { outcome: FormatterOutcome::NotStarted }),
        finish(Warning::FormatterNotStarted)
    );
    let outcome = FormatterOutcome::Exited { success: false, code: Some(1) };
    assert_eq!(
        step(EmitState::Written, EmitEvent::Format { outcome }),
        finish(Warning::FormatterFailed { code: Some(1) })
    );
    let outcome = FormatterOutcome::Exited { success: false, code: None };
    assert_eq!(formatter_warning(outcome), Some(Warning::FormatterFailed { code: None }));
    let outcome = FormatterOutcome::Exited { success: true, code: None };
    assert_eq!(formatter_warning(outcome), None);
}

#[test]
fn events_out_of_turn_fail() {
    let out_of_turn =
        EmitStep { state: EmitState::Failed, action: EmitAction::Fail { error: EmitError::OutOfTurn } };
    let directory = EmitEvent::Directory { found: true };
    let create = EmitEvent::Create { created: true };
    let write = EmitEvent::Write { written: true };
    let format = EmitEvent::Format { outcome: FormatterOutcome::NotStarted };
    let warning = Warning::FormatterNotStarted;
    let expected = [
        (EmitState::Start { mode: EmitMode::InPlace }, directory),
        (EmitState::Start { mode: EmitMode::Piped }, directory),
        (EmitState::Located { mode: EmitMode::InPlace }, create),
        (EmitState::Located { mode: EmitMode::Piped }, create),
        (EmitState::Created, write),
        (EmitState::Piping, format),
        (EmitState::Written, format),
        (EmitState::Unformatted { warning }, write),
    ];
    for (state, awaited) in expected {
        for event in [directory, create, write, format] {
            if event != awaited {
                assert_eq!(step(state, event), out_of_turn);
            } else {
                assert!(step(state, event) != out_of_turn);
            }
        }
    }
    for event in [directory, create, write, format] {
        assert_eq!(step(EmitState::Finished, event), out_of_turn);
        assert_eq!(step(EmitState::Failed, event), out_of_turn);
    }
}

#[test]
fn messages_of_emission() {
    assert_eq!(EmitError::NoOutputDirectory.message(), "No `OUT_DIR` env variable set");
    assert_eq!(EmitError::CreateFailed.message(), "Failed to create winrt.rs");
    assert_eq!(EmitError::WriteFailed.message(), "Could not write generated code to output file");
    assert_eq!(EmitError::OutOfTurn.message(), "Emission step out of turn");
    assert_eq!(Warning::FormatterNotStarted.message("ignored"), "Could not execute rustfmt");
    assert_eq!(
        Warning::FormatterFailed { code: Some(1) }.message("error: expected item"),
        "rustfmt did not exit properly: Some(1)\nerror: expected item"
    );
    assert_eq!(
        Warning::FormatterFailed { code: None }.message(""),
        "rustfmt did not exit properly: None\n"
    );
    assert_eq!(
        Warning::FormatterFailed { code: Some(-7) }.message("x"),
        "rustfmt did not exit properly: Some(-7)\nx"
    );
    assert_eq!(failure_message("Some(2)", "boom"), "rustfmt did not exit properly: Some(2)\nboom");
}
