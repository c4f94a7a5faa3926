//! Core vocabulary of the runtime: agents and their capabilities, task
//! classes and states, validation strictness, verifying keys, span outcomes,
//! and the workspace mode chosen from the size of the existing index.

use vstd::prelude::*;

verus! {

/// Kinds of agents the orchestrator can schedule.
#[derive(Debug, Clone, Copy, PartialEq, Eq, Hash, Structural)]
pub enum AgentKind {
    Interrogator,
    Researcher,
    Coder,
    Tester,
    Refactorer,
    RedTeam,
    Committer,
    NightWatchman,
    TruthValidator,
    ConflictResolver,
    IntegrityChecker,
}

/// Capabilities an agent may be granted.
#[derive(Debug, Clone, Copy, PartialEq, Eq, Hash, Structural)]
pub enum AgentCapability {
    ReadFiles,
    WriteFiles,
    RunShell,
    AccessNetwork,
    GitWrite,
    SacredWrite,
    MutateMemory,
}

/// Static description of an agent: its kind, capabilities and tools.
#[derive(Debug, Clone)]
pub struct AgentSpec {
    pub kind: AgentKind,
    pub capabilities: Vec<AgentCapability>,
    pub permitted_tools: Vec<String>,
}

/// Classes of tasks, which select how strictly a task is validated.
#[derive(Debug, Clone, Copy, PartialEq, Eq, Hash, Structural)]
pub enum TaskClass {
    NewFeature,
    BugFix,
    Refactor,
    Migration,
    Integration,
    Exploration,
    Chore,
    Docstring,
    Style,
}

/// The stable snake-case name of a task class.
pub open spec fn task_class_name(c: TaskClass) -> Seq<char> {
    match c {
        TaskClass::NewFeature => "new_feature"@,
        TaskClass::BugFix => "bug_fix"@,
        TaskClass::Refactor => "refactor"@,
        TaskClass::Migration => "migration"@,
        TaskClass::Integration => "integration"@,
        TaskClass::Exploration => "exploration"@,
        TaskClass::Chore => "chore"@,
        TaskClass::Docstring => "docstring"@,
        TaskClass::Style => "style"@,
    }
}

impl TaskClass {
    /// Returns the stable snake-case string representation of the task class.
    pub fn as_str(self) -> (r: &'static str)
        ensures
            r@ == task_class_name(self),
    {
        match self {
            TaskClass::NewFeature => "new_feature",
            TaskClass::BugFix => "bug_fix",
            TaskClass::Refactor => "refactor",
            TaskClass::Migration => "migration",
            TaskClass::Integration => "integration",
            TaskClass::Exploration => "exploration",
            TaskClass::Chore => "chore",
            TaskClass::Docstring => "docstring",
            TaskClass::Style => "style",
        }
    }
}

/// Lifecycle states of a task node.
#[derive(Debug, Clone, Copy, PartialEq, Eq, Hash, Structural)]
pub enum TaskStatus {
    Pending,
    Running,
    Complete,
    Failed,
    Deferred,
    Halted,
}

/// Validation strictness level used to validate a task.
#[derive(Debug, Clone, Copy, PartialEq, Eq, Hash, Structural)]
pub enum Strictness {
    /// Full validation for high-risk tasks.
    Strict,
    /// Reduced validation for narrow fixes and refactors.
    Light,
    /// Trusted path for low-risk style or documentation tasks.
    Trust,
}

/// The stable lowercase name of a strictness level.
pub open spec fn strictness_name(s: Strictness) -> Seq<char> {
    match s {
        Strictness::Strict => "strict"@,
        Strictness::Light => "light"@,
        Strictness::Trust => "trust"@,
    }
}

impl Strictness {
    /// Returns the stable lowercase string representation of the strictness level.
    pub fn as_str(self) -> (r: &'static str)
        ensures
            r@ == strictness_name(self),
    {
        match self {
            Strictness::Strict => "strict",
            Strictness::Light => "light",
            Strictness::Trust => "trust",
        }
    }
}

/// Public Ed25519 verifying key used for truth-token verification.
#[derive(Debug, Clone)]
pub struct VerifyingKey {
    bytes: Vec<u8>,
}

impl View for VerifyingKey {
    type V = Seq<u8>;

    closed spec fn view(&self) -> Seq<u8> {
        self.bytes@
    }
}

impl VerifyingKey {
    /// Creates a verifying key from raw public key bytes.
    pub fn new(bytes: Vec<u8>) -> (r: Self)
        ensures
            r@ == bytes@,
    {
        VerifyingKey { bytes }
    }

    /// Returns raw public key bytes.
    pub fn as_bytes(&self) -> (r: &[u8])
        ensures
            r@ == self@,
    {
        self.bytes.as_slice()
    }
}

/// Outcome of a traced span.
#[derive(Debug, Clone, Copy, PartialEq, Eq, Hash, Structural)]
pub enum Outcome {
    Success,
    Failure,
    Timeout,
    CircuitOpen,
    BudgetExceeded,
}

/// An error attached to a span.
#[derive(Debug, Clone)]
pub struct ErrorRecord {
    /// Category of the error.
    pub kind: String,
    /// Human-readable message.
    pub message: String,
    /// The span that raised the error, by its 128-bit identifier.
    pub source_span: Option<u128>,
}

/// Whether a project starts from scratch or builds on an existing index.
#[derive(Debug, Clone, Copy, PartialEq, Eq, Hash, Structural)]
pub enum WorkspaceMode {
    /// No usable index, or fewer than three indexed symbols.
    Greenfield,
    /// An index with at least three symbols exists.
    Incremental,
}

impl WorkspaceMode {
    /// Chooses the mode from the number of symbols in the project's index,
    /// `None` when there is no index or it cannot be read.
    pub fn detect(symbol_count: Option<i64>) -> (r: Self)
        ensures
            r == match symbol_count {
                Some(n) => if n < 3 { WorkspaceMode::Greenfield } else { WorkspaceMode::Incremental },
                None => WorkspaceMode::Greenfield,
            },
    {
        match symbol_count {
            Some(n) => if n < 3 {
                WorkspaceMode::Greenfield
            } else {
                WorkspaceMode::Incremental
            },
            None => WorkspaceMode::Greenfield,
        }
    }
}

} // verus!
