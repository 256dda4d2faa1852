//! The three-level error-handling policy, the run errors, and their
//! user-facing messages.
use vstd::prelude::*;

verus! {

/// How one category of policy-controlled error is handled: abort the run,
/// log and go on, or go on silently.
#[derive(Clone, Copy, PartialEq, Eq, Structural, Debug)]
pub enum ErrorHandling {
    Error,
    Warn,
    Ignore,
}

impl ErrorHandling {
    /// Parses a policy name.
    pub fn from_str(s: &str) -> (r: Result<ErrorHandling, String>)
        ensures
            r == (if s@ == "error"@ {
                Ok::<ErrorHandling, String>(ErrorHandling::Error)
            } else if s@ == "warn"@ {
                Ok::<ErrorHandling, String>(ErrorHandling::Warn)
            } else if s@ == "ignore"@ {
                Ok::<ErrorHandling, String>(ErrorHandling::Ignore)
            } else {
                r
            }),
            (s@ != "error"@ && s@ != "warn"@ && s@ != "ignore"@) ==> r is Err,
    {
        if crate::text::str_eq(s, "error") {
            Ok(ErrorHandling::Error)
        } else if crate::text::str_eq(s, "warn") {
            Ok(ErrorHandling::Warn)
        } else if crate::text::str_eq(s, "ignore") {
            Ok(ErrorHandling::Ignore)
        } else {
            let mut m = "Invalid error level: \"".to_owned();
            m.append(s);
            m.append("\"");
            Err(m)
        }
    }
}

/// Same three levels under the name used on the logging side.
#[derive(Clone, Copy, PartialEq, Eq, Structural, Debug)]
pub enum ErrorLevel {
    Error,
    Warn,
    Ignore,
}

impl ErrorLevel {
    /// Parses a level name.
    pub fn from_str(s: &str) -> (r: Result<ErrorLevel, String>)
        ensures
            r == (if s@ == "error"@ {
                Ok::<ErrorLevel, String>(ErrorLevel::Error)
            } else if s@ == "warn"@ {
                Ok::<ErrorLevel, String>(ErrorLevel::Warn)
            } else if s@ == "ignore"@ {
                Ok::<ErrorLevel, String>(ErrorLevel::Ignore)
            } else {
                r
            }),
            (s@ != "error"@ && s@ != "warn"@ && s@ != "ignore"@) ==> r is Err,
    {
        if crate::text::str_eq(s, "error") {
            Ok(ErrorLevel::Error)
        } else if crate::text::str_eq(s, "warn") {
            Ok(ErrorLevel::Warn)
        } else if crate::text::str_eq(s, "ignore") {
            Ok(ErrorLevel::Ignore)
        } else {
            let mut m = "Invalid error level: \"".to_owned();
            m.append(s);
            m.append("\"");
            Err(m)
        }
    }
}

/// The three policy selectors the engine consults.
#[derive(Clone, Copy, PartialEq, Eq, Structural, Debug)]
pub struct ErrorHandlingOpts {
    pub cyclic_include: ErrorHandling,
    pub unresolvable_quote_include: ErrorHandling,
    pub unresolvable_system_include: ErrorHandling,
}

/// The default policies: a cycle aborts, an unresolvable reference is
/// tolerated silently.
pub fn default_error_handling() -> (r: ErrorHandlingOpts)
    ensures
        r.cyclic_include == ErrorHandling::Error,
        r.unresolvable_quote_include == ErrorHandling::Ignore,
        r.unresolvable_system_include == ErrorHandling::Ignore,
{
    ErrorHandlingOpts {
        cyclic_include: ErrorHandling::Error,
        unresolvable_quote_include: ErrorHandling::Ignore,
        unresolvable_system_include: ErrorHandling::Ignore,
    }
}

/// A detected reference cycle: the canonical paths of the files forming it,
/// in traversal order (the re-entered file first, the file holding the
/// re-entering reference last).
pub struct CyclicIncludeError {
    pub cycle: Vec<String>,
}

/// One line per file of a cycle, each indented and newline-terminated.
pub open spec fn tabbed_lines(cycle: Seq<Seq<char>>) -> Seq<char>
    decreases cycle.len(),
{
    if cycle.len() == 0 {
        Seq::empty()
    } else {
        seq!['\t'] + cycle[0] + seq!['\n'] + tabbed_lines(cycle.drop_first())
    }
}

impl CyclicIncludeError {
    /// The diagnostic text listing the whole cycle.
    pub fn message(&self) -> (r: String)
        ensures
            r@ == "Cyclic include detected:\n"@ + tabbed_lines(self.cycle.deep_view()),
    {
        let ghost full = self.cycle.deep_view();
        let mut m = "Cyclic include detected:\n".to_owned();
        let n = self.cycle.len();
        let mut i: usize = 0;
        proof {
            assert(full.subrange(0, n as int) =~= full);
            assert(m@ + tabbed_lines(full.subrange(i as int, n as int)) =~= m@ + tabbed_lines(
                full,
            ));
        }
        while i < n
            invariant
                0 <= i <= n,
                n == self.cycle.len(),
                full == self.cycle.deep_view(),
                m@ + tabbed_lines(full.subrange(i as int, n as int)) == "Cyclic include detected:\n"@
                    + tabbed_lines(full),
            decreases n - i,
        {
            let ghost before = m@;
            let ghost rest = full.subrange(i as int, n as int);
            m.append("\t");
            m.append(self.cycle[i].as_str());
            m.append("\n");
            proof {
                reveal_strlit("\t");
                reveal_strlit("\n");
                assert(rest[0] == full[i as int]);
                assert(rest.drop_first() =~= full.subrange(i + 1, n as int));
                assert(m@ =~= before + seq!['\t'] + full[i as int] + seq!['\n']);
                assert(m@ + tabbed_lines(full.subrange(i + 1, n as int)) =~= before + tabbed_lines(
                    rest,
                ));
            }
            i = i + 1;
        }
        proof {
            assert(tabbed_lines(full.subrange(n as int, n as int)) =~= Seq::<char>::empty());
            assert(m@ + Seq::<char>::empty() =~= m@);
        }
        m
    }
}

/// Spec-level counterpart of `RunError`.
pub enum ErrV {
    /// A path that resolution already relied on cannot be canonicalized, or
    /// a root cannot be: always fatal.
    Canonicalize { path: Seq<char> },
    /// A root cannot be read as a file.
    Open { path: Seq<char> },
    /// A reference cycle; the chain lists the cycle in traversal order.
    Cyclic { cycle: Seq<Seq<char>> },
    /// A reference that resolved in no search directory.
    Unresolvable { rf: Seq<char>, system: bool },
}

/// A condition that, under an `Error` policy (or always, for the first two),
/// aborts the run. Under `Warn` the same value is recorded as a warning.
pub enum RunError {
    Canonicalize { path: String },
    Open { path: String },
    Cyclic { err: CyclicIncludeError },
    Unresolvable { rf: String, system: bool },
}

impl View for RunError {
    type V = ErrV;

    open spec fn view(&self) -> ErrV {
        match self {
            RunError::Canonicalize { path } => ErrV::Canonicalize { path: path@ },
            RunError::Open { path } => ErrV::Open { path: path@ },
            RunError::Cyclic { err } => ErrV::Cyclic { cycle: err.cycle.deep_view() },
            RunError::Unresolvable { rf, system } => ErrV::Unresolvable {
                rf: rf@,
                system: *system,
            },
        }
    }
}

impl DeepView for RunError {
    type V = ErrV;

    open spec fn deep_view(&self) -> ErrV {
        self.view()
    }
}

impl RunError {
    /// The single descriptive message for this condition.
    pub fn message(&self) -> (r: String)
        ensures
            r@ == match self@ {
                ErrV::Canonicalize { path } => "Failed to canonicalize path: \""@ + path
                    + "\""@,
                ErrV::Open { path } => "Failed to open file \""@ + path + "\""@,
                ErrV::Cyclic { cycle } => "Cyclic include detected:\n"@ + tabbed_lines(cycle),
                ErrV::Unresolvable { rf, system } => if system {
                    "Could not resolve <"@ + rf + ">"@
                } else {
                    "Could not resolve \""@ + rf + "\""@
                },
            },
    {
        match self {
            RunError::Canonicalize { path } => {
                let mut m = "Failed to canonicalize path: \"".to_owned();
                m.append(path.as_str());
                m.append("\"");
                m
            },
            RunError::Open { path } => {
                let mut m = "Failed to open file \"".to_owned();
                m.append(path.as_str());
                m.append("\"");
                m
            },
            RunError::Cyclic { err } => err.message(),
            RunError::Unresolvable { rf, system } => {
                if *system {
                    let mut m = "Could not resolve <".to_owned();
                    m.append(rf.as_str());
                    m.append(">");
                    m
                } else {
                    let mut m = "Could not resolve \"".to_owned();
                    m.append(rf.as_str());
                    m.append("\"");
                    m
                }
            },
        }
    }
}

/// Spec-level counterpart of `Query`.
pub enum QueryV {
    Stat { path: Seq<char> },
    Content { canon: Seq<char> },
}

/// A file-system fact the snapshot is missing. The caller collects it, adds
/// it to the snapshot, and runs again.
pub enum Query {
    /// What is this path spelling?
    Stat { path: String },
    /// The text of this canonical file.
    Content { canon: String },
}

impl View for Query {
    type V = QueryV;

    open spec fn view(&self) -> QueryV {
        match self {
            Query::Stat { path } => QueryV::Stat { path: path@ },
            Query::Content { canon } => QueryV::Content { canon: canon@ },
        }
    }
}

} // verus!
