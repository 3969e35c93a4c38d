//! Emission: the order in which the tree is written out, the text that is
//! made of the rendered parts, and the steps from the text to the
//! formatted file.

use crate::names::{lemma_sorted_unique, strictly_sorted, SortedNames};
use crate::text::{exit_code_text, format_exit_code, str_eq, strings_view};
use crate::tree::NamespaceTree;
use crate::universe::TypeUniverse;
use vstd::prelude::*;
use vstd::string::*;

verus! {

/// One namespace of the tree, with the types of the tree that it holds.
#[derive(Debug, Clone, PartialEq, Eq)]
pub struct NamespaceNode {
    pub namespace: String,
    pub types: Vec<usize>,
}

/// Whether a node holds, in the order of the universe, exactly the
/// members that live in its namespace, and at least one.
pub open spec fn is_node(universe: &TypeUniverse, members: Set<int>, node: NamespaceNode) -> bool {
    &&& node.types@.len() > 0
    &&& forall|k: int|
        0 <= k < node.types@.len() ==> {
            &&& universe.has(#[trigger] node.types@[k] as int)
            &&& members.contains(node.types@[k] as int)
            &&& universe.namespace_of(node.types@[k] as int) == node.namespace@
        }
    &&& forall|k: int, m: int| 0 <= k < m < node.types@.len() ==> node.types@[k] < node.types@[m]
    &&& forall|t: usize|
        universe.has(t as int) && members.contains(t as int) && universe.namespace_of(t as int)
            == node.namespace@ ==> node.types@.contains(t)
}

/// The namespaces of a list of nodes.
pub open spec fn node_namespaces(plan: Seq<NamespaceNode>) -> Seq<Seq<char>> {
    Seq::new(plan.len(), |k: int| plan[k].namespace@)
}

/// Whether a list of nodes is the plan of emission for a set of members:
/// one node for each namespace that holds a member, the namespaces in
/// lexicographic order, and each node with all the members of its
/// namespace.
pub open spec fn is_plan(
    universe: &TypeUniverse,
    members: Set<int>,
    plan: Seq<NamespaceNode>,
) -> bool {
    &&& strictly_sorted(node_namespaces(plan))
    &&& forall|k: int| 0 <= k < plan.len() ==> is_node(universe, members, #[trigger] plan[k])
    &&& forall|t: int|
        universe.has(t) && members.contains(t) ==> node_namespaces(plan).contains(
            #[trigger] universe.namespace_of(t),
        )
}

/// Two rising lists of positions that hold the same positions are the
/// same list.
pub proof fn lemma_rising_unique(a: Seq<usize>, b: Seq<usize>)
    requires
        forall|k: int, m: int| 0 <= k < m < a.len() ==> a[k] < a[m],
        forall|k: int, m: int| 0 <= k < m < b.len() ==> b[k] < b[m],
        forall|t: usize| a.contains(t) <==> b.contains(t),
    ensures
        a == b,
    decreases a.len(),
{
    if a.len() == 0 {
        if b.len() > 0 {
            assert(b.contains(b[0]));
        }
        assert(a =~= b);
    } else {
        assert(a.contains(a[0]));
        let i = choose|i: int| 0 <= i < b.len() && b[i] == a[0];
        assert(b.contains(b[0]));
        let j = choose|j: int| 0 <= j < a.len() && a[j] == b[0];
        assert(a[0] == b[0]);
        let x = a.drop_first();
        let y = b.drop_first();
        assert forall|t: usize| x.contains(t) <==> y.contains(t) by {
            if x.contains(t) {
                let k = choose|k: int| 0 <= k < x.len() && x[k] == t;
                assert(a[k + 1] == t);
                assert(a.contains(t));
                let m = choose|m: int| 0 <= m < b.len() && b[m] == t;
                assert(y[m - 1] == t);
            }
            if y.contains(t) {
                let k = choose|k: int| 0 <= k < y.len() && y[k] == t;
                assert(b[k + 1] == t);
                assert(b.contains(t));
                let m = choose|m: int| 0 <= m < a.len() && a[m] == t;
                assert(x[m - 1] == t);
            }
        }
        assert forall|k: int, m: int| 0 <= k < m < x.len() implies x[k] < x[m] by {
            assert(a[k + 1] < a[m + 1]);
        }
        assert forall|k: int, m: int| 0 <= k < m < y.len() implies y[k] < y[m] by {
            assert(b[k + 1] < b[m + 1]);
        }
        lemma_rising_unique(x, y);
        assert(a =~= seq![a[0]] + x);
        assert(b =~= seq![b[0]] + y);
    }
}

/// There is one plan only: two plans of emission for the same members
/// name the same namespaces in the same order, each with the same types
/// in the same order.
pub proof fn lemma_plan_is_determined(
    universe: &TypeUniverse,
    members: Set<int>,
    a: Seq<NamespaceNode>,
    b: Seq<NamespaceNode>,
)
    requires
        is_plan(universe, members, a),
        is_plan(universe, members, b),
    ensures
        node_namespaces(a) == node_namespaces(b),
        forall|k: int| 0 <= k < a.len() ==> (#[trigger] a[k]).types@ == b[k].types@,
{
    let x = node_namespaces(a);
    let y = node_namespaces(b);
    lemma_plan_names(universe, members, a, b);
    lemma_plan_names(universe, members, b, a);
    lemma_sorted_unique(x, y);
    assert forall|k: int| 0 <= k < a.len() implies (#[trigger] a[k]).types@ == b[k].types@ by {
        assert(x[k] == y[k]);
        assert(is_node(universe, members, a[k]));
        assert(is_node(universe, members, b[k]));
        let p = a[k].types@;
        let q = b[k].types@;
        assert forall|t: usize| p.contains(t) <==> q.contains(t) by {
            if p.contains(t) {
                let i = choose|i: int| 0 <= i < p.len() && p[i] == t;
                assert(universe.has(p[i] as int));
            }
            if q.contains(t) {
                let i = choose|i: int| 0 <= i < q.len() && q[i] == t;
                assert(universe.has(q[i] as int));
            }
        }
        lemma_rising_unique(p, q);
    }
}

/// Every namespace of one plan is a namespace of any other.
proof fn lemma_plan_names(
    universe: &TypeUniverse,
    members: Set<int>,
    a: Seq<NamespaceNode>,
    b: Seq<NamespaceNode>,
)
    requires
        is_plan(universe, members, a),
        is_plan(universe, members, b),
    ensures
        forall|name: Seq<char>| node_namespaces(a).contains(name) ==> node_namespaces(b).contains(
            name,
        ),
{
    assert forall|name: Seq<char>| node_namespaces(a).contains(name) implies node_namespaces(
        b,
    ).contains(name) by {
        let k = choose|k: int| 0 <= k < a.len() && node_namespaces(a)[k] == name;
        assert(is_node(universe, members, a[k]));
        let t = a[k].types@[0];
        assert(universe.has(t as int));
        assert(node_namespaces(b).contains(universe.namespace_of(t as int)));
    }
}

/// The namespaces of the members among the first `bound` types.
pub open spec fn member_namespaces(
    universe: &TypeUniverse,
    members: Set<int>,
    bound: int,
) -> Set<Seq<char>> {
    Set::new(
        |namespace: Seq<char>|
            exists|t: int|
                0 <= t < bound && members.contains(t) && #[trigger] universe.namespace_of(t)
                    == namespace,
    )
}

/// The namespaces that hold a member of the tree, in order.
fn tree_namespaces(universe: &TypeUniverse, tree: &NamespaceTree) -> (names: SortedNames)
    requires
        tree.fits(universe),
    ensures
        names.wf(),
        names@.to_set() == member_namespaces(universe, tree@.members, universe.size()),
{
    let mut names = SortedNames::new();
    let n: usize = universe.types.len();
    let mut t: usize = 0;
    assert(names@.to_set() =~= member_namespaces(universe, tree@.members, 0));
    while t < n
        invariant
            n == universe.size(),
            tree.fits(universe),
            t <= n,
            names.wf(),
            names@.to_set() == member_namespaces(universe, tree@.members, t as int),
        decreases n - t,
    {
        let ghost before = names@.to_set();
        if tree.members[t] {
            names.insert(universe.types[t].namespace.clone());
            proof {
                let next = member_namespaces(universe, tree@.members, t + 1);
                let added = universe.namespace_of(t as int);
                assert forall|namespace: Seq<char>| next.contains(namespace) <==> before.insert(
                    added,
                ).contains(namespace) by {
                    if next.contains(namespace) {
                        let s = choose|s: int|
                            0 <= s < t + 1 && tree@.members.contains(s)
                                && #[trigger] universe.namespace_of(s) == namespace;
                        if s < t {
                            assert(before.contains(namespace));
                        }
                    }
                    if before.contains(namespace) {
                        let s = choose|s: int|
                            0 <= s < t && tree@.members.contains(s)
                                && #[trigger] universe.namespace_of(s) == namespace;
                        assert(next.contains(namespace));
                    }
                    if namespace == added {
                        assert(universe.namespace_of(t as int) == namespace);
                    }
                }
                assert(next =~= before.insert(added));
            }
        } else {
            proof {
                let next = member_namespaces(universe, tree@.members, t + 1);
                assert forall|namespace: Seq<char>| next.contains(namespace) <==> before.contains(
                    namespace,
                ) by {
                    if next.contains(namespace) {
                        let s = choose|s: int|
                            0 <= s < t + 1 && tree@.members.contains(s)
                                && #[trigger] universe.namespace_of(s) == namespace;
                        assert(s < t);
                    }
                    if before.contains(namespace) {
                        let s = choose|s: int|
                            0 <= s < t && tree@.members.contains(s)
                                && #[trigger] universe.namespace_of(s) == namespace;
                        assert(next.contains(namespace));
                    }
                }
                assert(next =~= before);
            }
        }
        t += 1;
    }
    names
}

/// The members of the tree that live in one namespace, in the order of
/// the universe.
fn namespace_members(universe: &TypeUniverse, tree: &NamespaceTree, namespace: &str) -> (types:
    Vec<usize>)
    requires
        tree.fits(universe),
    ensures
        forall|k: int|
            0 <= k < types@.len() ==> {
                &&& universe.has(#[trigger] types@[k] as int)
                &&& tree@.members.contains(types@[k] as int)
                &&& universe.namespace_of(types@[k] as int) == namespace@
            },
        forall|k: int, m: int| 0 <= k < m < types@.len() ==> types@[k] < types@[m],
        forall|t: usize|
            universe.has(t as int) && tree@.members.contains(t as int) && universe.namespace_of(
                t as int,
            ) == namespace@ ==> types@.contains(t),
{
    let mut types: Vec<usize> = Vec::new();
    let n: usize = universe.types.len();
    let mut t: usize = 0;
    while t < n
        invariant
            n == universe.size(),
            tree.fits(universe),
            t <= n,
            forall|k: int|
                0 <= k < types@.len() ==> {
                    &&& (#[trigger] types@[k]) < t
                    &&& tree@.members.contains(types@[k] as int)
                    &&& universe.namespace_of(types@[k] as int) == namespace@
                },
            forall|k: int, m: int| 0 <= k < m < types@.len() ==> types@[k] < types@[m],
            forall|s: usize|
                s < t && tree@.members.contains(s as int) && universe.namespace_of(s as int)
                    == namespace@ ==> types@.contains(s),
        decreases n - t,
    {
        if tree.members[t] && str_eq(universe.types[t].namespace.as_str(), namespace) {
            let ghost before = types@;
            types.push(t);
            proof {
                assert forall|s: usize|
                    s < t + 1 && tree@.members.contains(s as int) && universe.namespace_of(
                        s as int,
                    ) == namespace@ implies types@.contains(s) by {
                    if s < t {
                        let k = choose|k: int| 0 <= k < before.len() && before[k] == s;
                        assert(types@[k] == s);
                    } else {
                        assert(types@[types@.len() - 1] == s);
                    }
                }
            }
        }
        t += 1;
    }
    types
}

/// The plan of emission for a tree: its namespaces in lexicographic
/// order, each with its types in the order of the universe.
pub fn emission_plan(universe: &TypeUniverse, tree: &NamespaceTree) -> (plan: Vec<NamespaceNode>)
    requires
        tree.fits(universe),
    ensures
        is_plan(universe, tree@.members, plan@),
{
    let names = tree_namespaces(universe, tree);
    let n: usize = universe.types.len();
    let mut plan: Vec<NamespaceNode> = Vec::new();
    let mut k: usize = 0;
    while k < names.names.len()
        invariant
            n == universe.size(),
            tree.fits(universe),
            names.wf(),
            names@.to_set() == member_namespaces(universe, tree@.members, universe.size()),
            k <= names.names@.len(),
            plan@.len() == k,
            forall|i: int| 0 <= i < k ==> (#[trigger] plan@[i]).namespace@ == names@[i],
            forall|i: int| 0 <= i < k ==> is_node(universe, tree@.members, #[trigger] plan@[i]),
        decreases names.names.len() - k,
    {
        let namespace = names.names[k].clone();
        let types = namespace_members(universe, tree, namespace.as_str());
        proof {
            assert(names@[k as int] == namespace@);
            assert(names@.to_set().contains(namespace@));
            let t = choose|t: int|
                0 <= t < universe.size() && tree@.members.contains(t)
                    && #[trigger] universe.namespace_of(t) == namespace@;
            assert(types@.contains(t as usize));
        }
        plan.push(NamespaceNode { namespace, types });
        k += 1;
    }
    proof {
        assert(node_namespaces(plan@) =~= names@);
        assert forall|t: int| universe.has(t) && tree@.members.contains(t) implies node_namespaces(
            plan@,
        ).contains(#[trigger] universe.namespace_of(t)) by {
            assert(member_namespaces(universe, tree@.members, universe.size()).contains(
                universe.namespace_of(t),
            ));
            assert(names@.to_set().contains(universe.namespace_of(t)));
        }
    }
    plan
}

/// The text that a list of parts makes: one part after the other.
pub open spec fn joined(parts: Seq<Seq<char>>) -> Seq<char>
    decreases parts.len(),
{
    if parts.len() == 0 {
        Seq::empty()
    } else {
        joined(parts.drop_last()) + parts.last()
    }
}

/// Joins the rendered parts into the text of the generated source.
pub fn join_fragments(fragments: &Vec<String>) -> (text: String)
    ensures
        text@ == joined(strings_view(fragments@)),
{
    let mut text = String::new();
    let mut i: usize = 0;
    while i < fragments.len()
        invariant
            i <= fragments@.len(),
            text@ == joined(strings_view(fragments@).subrange(0, i as int)),
        decreases fragments.len() - i,
    {
        text.append(fragments[i].as_str());
        proof {
            let next = strings_view(fragments@).subrange(0, i + 1);
            assert(next.drop_last() == strings_view(fragments@).subrange(0, i as int));
            assert(next.last() == fragments@[i as int]@);
        }
        i += 1;
    }
    assert(strings_view(fragments@).subrange(0, i as int) == strings_view(fragments@));
    text
}

/// The lines that tell the build host which files to watch: one for each
/// metadata file, in the order of the files.
pub fn rerun_if_changed(paths: &Vec<String>) -> (lines: Vec<String>)
    ensures
        lines@.len() == paths@.len(),
        forall|i: int|
            0 <= i < paths@.len() ==> (#[trigger] lines@[i])@ == "cargo:rerun-if-changed="@
                + paths@[i]@,
{
    let mut lines: Vec<String> = Vec::new();
    let mut i: usize = 0;
    while i < paths.len()
        invariant
            i <= paths@.len(),
            lines@.len() == i,
            forall|j: int|
                0 <= j < i ==> (#[trigger] lines@[j])@ == "cargo:rerun-if-changed="@ + paths@[j]@,
        decreases paths.len() - i,
    {
        lines.push(String::from_str("cargo:rerun-if-changed=").concat(paths[i].as_str()));
        i += 1;
    }
    lines
}

/// The name of the generated file in the output directory.
pub fn output_file_name() -> (name: &'static str)
    ensures
        name@ == "winrt.rs"@,
{
    "winrt.rs"
}

/// How the text gets formatted.
#[derive(Debug, Clone, Copy, PartialEq, Eq, Structural)]
pub enum EmitMode {
    /// The text is written to the file, and the formatter then rewrites
    /// the file in place.
    InPlace,
    /// The text is piped through the formatter, and what the formatter
    /// writes is what goes to the file.
    Piped,
}

/// How far the emission has come.
#[derive(Debug, Clone, Copy, PartialEq, Eq, Structural)]
pub enum EmitState {
    /// The output directory is being looked up.
    Start { mode: EmitMode },
    /// The output directory is known; the file is being created.
    Located { mode: EmitMode },
    /// The file exists; the text is being written, to be formatted in
    /// place.
    Created,
    /// The file exists; the text is being piped through the formatter.
    Piping,
    /// The text is in the file; the formatter is running on the file.
    Written,
    /// The formatter has not delivered; the text is being written as it
    /// is.
    Unformatted { warning: Warning },
    /// The emission is over, and the file holds the text.
    Finished,
    /// The emission has failed.
    Failed,
}

/// How the run of the formatter ended.
#[derive(Debug, Clone, Copy, PartialEq, Eq, Structural)]
pub enum FormatterOutcome {
    /// The formatter could not be started.
    NotStarted,
    /// The formatter ran and ended with this status.
    Exited { success: bool, code: Option<i32> },
}

/// What the outside world reports back after an action.
#[derive(Debug, Clone, Copy, PartialEq, Eq, Structural)]
pub enum EmitEvent {
    /// The lookup of the output directory is over.
    Directory { found: bool },
    /// The creation of the file is over.
    Create { created: bool },
    /// The writing of the text is over.
    Write { written: bool },
    /// The run of the formatter is over.
    Format { outcome: FormatterOutcome },
}

/// Why an emission fails.
#[derive(Debug, Clone, Copy, PartialEq, Eq, Structural)]
pub enum EmitError {
    /// The build host names no output directory.
    NoOutputDirectory,
    /// The file could not be created.
    CreateFailed,
    /// The text could not be written.
    WriteFailed,
    /// An event was reported that the state does not wait for.
    OutOfTurn,
}

/// What the formatter leaves to say to the user. The file is kept.
#[derive(Debug, Clone, Copy, PartialEq, Eq, Structural)]
pub enum Warning {
    /// The formatter could not be started.
    FormatterNotStarted,
    /// The formatter ended without success.
    FormatterFailed { code: Option<i32> },
}

/// What is to be done next.
#[derive(Debug, Clone, Copy, PartialEq, Eq, Structural)]
pub enum EmitAction {
    /// Look up the output directory.
    LookUpDirectory,
    /// Create the file in the output directory.
    CreateFile,
    /// Write the text into the file, in place of what the file holds.
    WriteText,
    /// Run the formatter on the file.
    RunFormatter,
    /// Hand the text to the formatter through a pipe, and let what the
    /// formatter writes go to the file.
    PipeThroughFormatter,
    /// Stop: the file holds the text. Report the warning, if any.
    Finish { warning: Option<Warning> },
    /// Stop: the emission has failed.
    Fail { error: EmitError },
}

/// A state and the action that leads on from it.
#[derive(Debug, Clone, Copy, PartialEq, Eq, Structural)]
pub struct EmitStep {
    pub state: EmitState,
    pub action: EmitAction,
}

/// The warning that an outcome of the formatter calls for: none where
/// the formatter ran with success.
pub open spec fn warning_of(outcome: FormatterOutcome) -> Option<Warning> {
    match outcome {
        FormatterOutcome::NotStarted => Some(Warning::FormatterNotStarted),
        FormatterOutcome::Exited { success, code } => if success {
            None
        } else {
            Some(Warning::FormatterFailed { code })
        },
    }
}

/// The step that ends an emission with this error.
pub open spec fn failure(error: EmitError) -> EmitStep {
    EmitStep { state: EmitState::Failed, action: EmitAction::Fail { error } }
}

/// The step that ends an emission with the text in the file.
pub open spec fn finish(warning: Option<Warning>) -> EmitStep {
    EmitStep { state: EmitState::Finished, action: EmitAction::Finish { warning } }
}

/// The step that follows when `event` is reported in `state`. A failure
/// to find the directory, to create the file or to write the text ends
/// the emission. Whatever the formatter does, the emission goes on: in
/// place, the file holds the text already; piped, the text is written as
/// it is where the formatter has not delivered.
pub open spec fn transition(state: EmitState, event: EmitEvent) -> EmitStep {
    match (state, event) {
        (EmitState::Start { mode }, EmitEvent::Directory { found }) => if found {
            EmitStep { state: EmitState::Located { mode }, action: EmitAction::CreateFile }
        } else {
            failure(EmitError::NoOutputDirectory)
        },
        (EmitState::Located { mode }, EmitEvent::Create { created }) => if !created {
            failure(EmitError::CreateFailed)
        } else {
            match mode {
                EmitMode::InPlace => EmitStep {
                    state: EmitState::Created,
                    action: EmitAction::WriteText,
                },
                EmitMode::Piped => EmitStep {
                    state: EmitState::Piping,
                    action: EmitAction::PipeThroughFormatter,
                },
            }
        },
        (EmitState::Created, EmitEvent::Write { written }) => if written {
            EmitStep { state: EmitState::Written, action: EmitAction::RunFormatter }
        } else {
            failure(EmitError::WriteFailed)
        },
        (EmitState::Written, EmitEvent::Format { outcome }) => finish(warning_of(outcome)),
        (EmitState::Piping, EmitEvent::Format { outcome }) => match warning_of(outcome) {
            None => finish(None),
            Some(warning) => EmitStep {
                state: EmitState::Unformatted { warning },
                action: EmitAction::WriteText,
            },
        },
        (EmitState::Unformatted { warning }, EmitEvent::Write { written }) => if written {
            finish(Some(warning))
        } else {
            failure(EmitError::WriteFailed)
        },
        _ => failure(EmitError::OutOfTurn),
    }
}

/// The warning that an outcome of the formatter calls for.
pub fn formatter_warning(outcome: FormatterOutcome) -> (warning: Option<Warning>)
    ensures
        warning == warning_of(outcome),
{
    match outcome {
        FormatterOutcome::NotStarted => Some(Warning::FormatterNotStarted),
        FormatterOutcome::Exited { success, code } => if success {
            None
        } else {
            Some(Warning::FormatterFailed { code })
        },
    }
}

/// How an emission begins.
pub fn start(mode: EmitMode) -> (step: EmitStep)
    ensures
        step == (EmitStep { state: EmitState::Start { mode }, action: EmitAction::LookUpDirectory }),
{
    EmitStep { state: EmitState::Start { mode }, action: EmitAction::LookUpDirectory }
}

/// The step that follows when `event` is reported in `state`.
pub fn step(state: EmitState, event: EmitEvent) -> (next: EmitStep)
    ensures
        next == transition(state, event),
{
    match (state, event) {
        (EmitState::Start { mode }, EmitEvent::Directory { found }) => {
            if found {
                EmitStep { state: EmitState::Located { mode }, action: EmitAction::CreateFile }
            } else {
                fail(EmitError::NoOutputDirectory)
            }
        },
        (EmitState::Located { mode }, EmitEvent::Create { created }) => {
            if !created {
                fail(EmitError::CreateFailed)
            } else {
                match mode {
                    EmitMode::InPlace => EmitStep {
                        state: EmitState::Created,
                        action: EmitAction::WriteText,
                    },
                    EmitMode::Piped => EmitStep {
                        state: EmitState::Piping,
                        action: EmitAction::PipeThroughFormatter,
                    },
                }
            }
        },
        (EmitState::Created, EmitEvent::Write { written }) => {
            if written {
                EmitStep { state: EmitState::Written, action: EmitAction::RunFormatter }
            } else {
                fail(EmitError::WriteFailed)
            }
        },
        (EmitState::Written, EmitEvent::Format { outcome }) => done(formatter_warning(outcome)),
        (EmitState::Piping, EmitEvent::Format { outcome }) => {
            match formatter_warning(outcome) {
                None => done(None),
                Some(warning) => EmitStep {
                    state: EmitState::Unformatted { warning },
                    action: EmitAction::WriteText,
                },
            }
        },
        (EmitState::Unformatted { warning }, EmitEvent::Write { written }) => {
            if written {
                done(Some(warning))
            } else {
                fail(EmitError::WriteFailed)
            }
        },
        _ => fail(EmitError::OutOfTurn),
    }
}

/// The step that ends an emission with an error.
fn fail(error: EmitError) -> (step: EmitStep)
    ensures
        step == failure(error),
{
    EmitStep { state: EmitState::Failed, action: EmitAction::Fail { error } }
}

/// The step that ends an emission with the text in the file.
fn done(warning: Option<Warning>) -> (step: EmitStep)
    ensures
        step == finish(warning),
{
    EmitStep { state: EmitState::Finished, action: EmitAction::Finish { warning } }
}

/// Whether the file holds the text in this state: written as it is, or as
/// the formatter has delivered it.
pub open spec fn holds_text(state: EmitState) -> bool {
    state == EmitState::Written || state == EmitState::Finished
}

/// No outcome of the formatter is an error: in place the emission
/// finishes at once, and only a run that ended with success leaves nothing
/// to report; piped it finishes at once after such a run, and else goes on
/// to write the text as it is.
pub proof fn lemma_formatter_is_not_fatal(outcome: FormatterOutcome)
    ensures
        transition(EmitState::Written, EmitEvent::Format { outcome }) == finish(
            warning_of(outcome),
        ),
        warning_of(outcome) is None <==> outcome is Exited && outcome->success,
        warning_of(outcome) is None ==> transition(
            EmitState::Piping,
            EmitEvent::Format { outcome },
        ) == finish(None),
        warning_of(outcome) matches Some(warning) ==> transition(
            EmitState::Piping,
            EmitEvent::Format { outcome },
        ) == (EmitStep { state: EmitState::Unformatted { warning }, action: EmitAction::WriteText }),
{
}

/// An emission finishes only with the text in the file: after the
/// formatter ran on the written file, after the formatter delivered
/// through the pipe, or after the text was written as it is.
pub proof fn lemma_finish_holds_text(state: EmitState, event: EmitEvent)
    requires
        transition(state, event).action is Finish,
    ensures
        transition(state, event).state == EmitState::Finished,
        ({
            ||| state == EmitState::Written && event is Format
            ||| state == EmitState::Piping && event is Format && warning_of(event->outcome) is None
            ||| state is Unformatted && event == (EmitEvent::Write { written: true })
        }),
{
}

/// The formatter is run on the file only when the file holds the text:
/// the action comes only when the writing is reported to have succeeded.
pub proof fn lemma_formatter_runs_after_write(state: EmitState, event: EmitEvent)
    requires
        transition(state, event).action == EmitAction::RunFormatter,
    ensures
        state == EmitState::Created,
        event == (EmitEvent::Write { written: true }),
        holds_text(transition(state, event).state),
{
}

/// A warning of the formatter is never lost: where the text is written
/// as it is after the formatter has not delivered, the emission finishes
/// with that warning.
pub proof fn lemma_warning_is_kept(warning: Warning)
    ensures
        transition(EmitState::Unformatted { warning }, EmitEvent::Write { written: true })
            == finish(Some(warning)),
{
}

/// An emission that is over stays over: nothing follows a finished or a
/// failed emission but a failure.
pub proof fn lemma_over_is_over(state: EmitState, event: EmitEvent)
    requires
        state == EmitState::Finished || state == EmitState::Failed,
    ensures
        transition(state, event) == failure(EmitError::OutOfTurn),
{
}

impl EmitError {
    /// The text of the diagnostic.
    pub fn message(&self) -> (text: &'static str)
        ensures
            text@ == match *self {
                EmitError::NoOutputDirectory => "No `OUT_DIR` env variable set"@,
                EmitError::CreateFailed => "Failed to create winrt.rs"@,
                EmitError::WriteFailed => "Could not write generated code to output file"@,
                EmitError::OutOfTurn => "Emission step out of turn"@,
            },
    {
        match self {
            EmitError::NoOutputDirectory => "No `OUT_DIR` env variable set",
            EmitError::CreateFailed => "Failed to create winrt.rs",
            EmitError::WriteFailed => "Could not write generated code to output file",
            EmitError::OutOfTurn => "Emission step out of turn",
        }
    }
}

/// The text of the warning for a formatter that ended without success,
/// from the exit code as it is written out and what the formatter wrote
/// to its error stream.
pub fn failure_message(code_text: &str, stderr: &str) -> (text: String)
    ensures
        text@ == "rustfmt did not exit properly: "@ + code_text@ + "\n"@ + stderr@,
{
    String::from_str("rustfmt did not exit properly: ").concat(code_text).concat("\n").concat(
        stderr,
    )
}

impl Warning {
    /// The text of the warning, given what the formatter wrote to its
    /// error stream.
    pub fn message(&self, stderr: &str) -> (text: String)
        ensures
            text@ == match *self {
                Warning::FormatterNotStarted => "Could not execute rustfmt"@,
                Warning::FormatterFailed { code } => "rustfmt did not exit properly: "@
                    + exit_code_text(code) + "\n"@ + stderr@,
            },
    {
        match self {
            Warning::FormatterNotStarted => String::from_str("Could not execute rustfmt"),
            Warning::FormatterFailed { code } => {
                let code_text = format_exit_code(*code);
                failure_message(code_text.as_str(), stderr)
            },
        }
    }
}

} // verus!
