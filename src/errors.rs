use vstd::prelude::*;

verus! {

/// What kind of failure an error stands for.
#[derive(Clone, Copy, Debug, PartialEq, Eq, Structural)]
pub enum CargoErrorKind {
    /// A plain message with no further classification.
    Msg,
    /// Package data could not be fetched (network or file access).
    SourceUnavailable,
    /// No version assignment satisfies all requirements.
    ResolutionConflict,
    /// A requested build target does not exist.
    GraphError,
    /// A compiler invocation exited with a non-zero status.
    CompileFailure,
    /// An invariant was violated; its details are hidden unless verbose.
    Internal,
}

/// How much the console layer should show.
#[derive(Clone, Copy, Debug, PartialEq, Eq, Structural)]
pub enum Verbosity {
    Verbose,
    Normal,
    Quiet,
}

/// One layer of an error chain: its kind and its rendered message.
#[derive(Clone, Debug)]
pub struct ChainLink {
    pub kind: CargoErrorKind,
    pub message: String,
}

/// An error with an ordered cause chain; `causes[0]` is the direct cause.
#[derive(Clone, Debug)]
pub struct CargoError {
    pub kind: CargoErrorKind,
    pub message: String,
    pub causes: Vec<ChainLink>,
}

/// An error as reported by a command, with the process exit code to use.
/// `unknown` marks an error whose details are hidden unless verbose.
#[derive(Clone, Debug)]
pub struct CliError {
    pub error: Option<CargoError>,
    pub exit_code: i32,
    pub unknown: bool,
}

/// One message for the console layer to render.
#[derive(Clone, Debug)]
pub enum ShellLine {
    /// An error message, shown on the error stream with an error prefix.
    Error(String),
    /// The generic message shown in place of a hidden error.
    UnknownError,
    /// A plain status message (a non-fatal report).
    Status(String),
    /// One cause of the chain, shown under a "Caused by:" header.
    Cause(String),
    /// The hint to re-run with verbose output.
    VerboseHint,
}

/// The full result of reporting a command's error: what to show and how to exit.
#[derive(Clone, Debug)]
pub struct ErrorReport {
    pub lines: Vec<ShellLine>,
    pub exit_code: i32,
}

pub open spec fn is_internal(l: ChainLink) -> bool {
    l.kind == CargoErrorKind::Internal
}

pub open spec fn is_cause_line(l: ShellLine, m: Seq<char>) -> bool {
    match l {
        ShellLine::Cause(s) => s@ == m,
        _ => false,
    }
}

pub open spec fn is_error_line(l: ShellLine, m: Seq<char>) -> bool {
    match l {
        ShellLine::Error(s) => s@ == m,
        _ => false,
    }
}

pub open spec fn is_status_line(l: ShellLine, m: Seq<char>) -> bool {
    match l {
        ShellLine::Status(s) => s@ == m,
        _ => false,
    }
}

/// Index of the first `Internal` link of a chain, or its length if none.
pub open spec fn first_internal(c: Seq<ChainLink>) -> int
    decreases c.len(),
{
    if c.len() == 0 {
        0
    } else if is_internal(c[0]) {
        0
    } else {
        1 + first_internal(c.drop_first())
    }
}

/// How many causes are shown: all when verbose, otherwise those before the
/// first internal one.
pub open spec fn shown_causes(c: Seq<ChainLink>, verbose: bool) -> int {
    if verbose {
        c.len() as int
    } else {
        first_internal(c)
    }
}

/// `lines` shows exactly the first `n` causes of `c`, in order.
pub open spec fn shows_causes(lines: Seq<ShellLine>, c: Seq<ChainLink>, n: int) -> bool {
    &&& lines.len() == n
    &&& forall|i: int| 0 <= i < n ==> #[trigger] is_cause_line(lines[i], c[i].message@)
}

proof fn lemma_first_internal_bounds(c: Seq<ChainLink>)
    ensures
        0 <= first_internal(c) <= c.len(),
        forall|j: int| 0 <= j < first_internal(c) ==> !is_internal(#[trigger] c[j]),
        first_internal(c) < c.len() ==> is_internal(c[first_internal(c)]),
    decreases c.len(),
{
    if c.len() > 0 && !is_internal(c[0]) {
        lemma_first_internal_bounds(c.drop_first());
        assert forall|j: int| 0 <= j < first_internal(c) implies !is_internal(#[trigger] c[j]) by {
            if j > 0 {
                assert(c[j] == c.drop_first()[j - 1]);
            }
        }
    }
}

proof fn lemma_first_internal_at(c: Seq<ChainLink>, k: int)
    requires
        0 <= k <= c.len(),
        forall|j: int| 0 <= j < k ==> !is_internal(#[trigger] c[j]),
        k == c.len() || is_internal(c[k]),
    ensures
        first_internal(c) == k,
    decreases c.len(),
{
    if c.len() > 0 && k > 0 {
        assert forall|j: int| 0 <= j < k - 1 implies !is_internal(#[trigger] c.drop_first()[j]) by {
            assert(c.drop_first()[j] == c[j + 1]);
        }
        if k < c.len() {
            assert(c.drop_first()[k - 1] == c[k]);
        }
        lemma_first_internal_at(c.drop_first(), k - 1);
    }
}

/// The cause lines shown for an error chain. When verbose, every cause is
/// shown; otherwise causes are shown until the first internal one. The flag
/// says whether the chain was shown completely.
pub fn handle_cause(err: &CargoError, verbosity: Verbosity) -> (r: (Vec<ShellLine>, bool))
    ensures
        shows_causes(
            r.0@,
            err.causes@,
            shown_causes(err.causes@, verbosity == Verbosity::Verbose),
        ),
        r.1 == (shown_causes(err.causes@, verbosity == Verbosity::Verbose)
            == err.causes@.len()),
{
    let verbose = matches!(verbosity, Verbosity::Verbose);
    let mut lines: Vec<ShellLine> = Vec::new();
    let n = err.causes.len();
    let mut i: usize = 0;
    while i < n
        invariant
            n == err.causes@.len(),
            i <= n,
            verbose == (verbosity == Verbosity::Verbose),
            shows_causes(lines@, err.causes@, i as int),
            !verbose ==> forall|j: int| 0 <= j < i ==> !is_internal(#[trigger] err.causes@[j]),
        decreases n - i,
    {
        let link = &err.causes[i];
        if !verbose && matches!(link.kind, CargoErrorKind::Internal) {
            proof {
                lemma_first_internal_at(err.causes@, i as int);
            }
            return (lines, false);
        }
        lines.push(ShellLine::Cause(link.message.clone()));
        i = i + 1;
    }
    proof {
        if !verbose {
            lemma_first_internal_at(err.causes@, n as int);
        }
    }
    (lines, true)
}

/// The lines shown for an error reported in the middle of a command: the
/// error itself, then its causes as `handle_cause` shows them, then the
/// verbose hint when the chain was cut at an internal cause.
pub fn handle_error(err: &CargoError, verbosity: Verbosity) -> (r: Vec<ShellLine>)
    ensures
        ({
            let n = shown_causes(err.causes@, verbosity == Verbosity::Verbose);
            let cut = n < err.causes@.len();
            &&& r@.len() == 1 + n + (if cut { 1int } else { 0int })
            &&& is_error_line(r@[0], err.message@)
            &&& shows_causes(r@.subrange(1, 1 + n), err.causes@, n)
            &&& cut ==> r@[1 + n] is VerboseHint
        }),
{
    let mut r: Vec<ShellLine> = Vec::new();
    r.push(ShellLine::Error(err.message.clone()));
    let ghost first = r@[0];
    let (mut causes, complete) = handle_cause(err, verbosity);
    let ghost shown = causes@;
    r.append(&mut causes);
    if !complete {
        r.push(ShellLine::VerboseHint);
    }
    proof {
        lemma_first_internal_bounds(err.causes@);
        let n = shown.len() as int;
        assert(r@[0] == first);
        assert(r@.subrange(1, 1 + n) =~= shown);
        if !complete {
            assert(r@[1 + n] is VerboseHint);
        }
    }
    r
}

/// The lines a command's final error is shown with, and the exit code.
/// A zero exit code marks a non-fatal report, shown as a status message.
/// An error marked unknown is hidden unless verbose: the generic message and
/// the verbose hint replace it and its whole cause chain. Otherwise the error
/// and its shown causes follow, with the hint when the chain was cut at an
/// internal cause.
pub fn error_report(err: &CliError, verbosity: Verbosity) -> (r: ErrorReport)
    ensures
        r.exit_code == err.exit_code,
        err.error is None ==> r.lines@.len() == 0,
        err.error is Some ==> {
            let e = err.error->Some_0;
            let verbose = verbosity == Verbosity::Verbose;
            let hide = err.unknown && !verbose;
            let n = shown_causes(e.causes@, verbose);
            let cut = n < e.causes@.len();
            if hide {
                &&& r.lines@.len() == 2
                &&& r.lines@[0] is UnknownError
                &&& r.lines@[1] is VerboseHint
            } else {
                &&& r.lines@.len() == 1 + n + (if cut { 1int } else { 0int })
                &&& if err.exit_code != 0 {
                    is_error_line(r.lines@[0], e.message@)
                } else {
                    is_status_line(r.lines@[0], e.message@)
                }
                &&& shows_causes(r.lines@.subrange(1, 1 + n), e.causes@, n)
                &&& cut ==> r.lines@[1 + n] is VerboseHint
            }
        },
{
    let mut lines: Vec<ShellLine> = Vec::new();
    match &err.error {
        None => {},
        Some(e) => {
            let hide = err.unknown && !matches!(verbosity, Verbosity::Verbose);
            if hide {
                lines.push(ShellLine::UnknownError);
                lines.push(ShellLine::VerboseHint);
            } else {
                let fatal = err.exit_code != 0;
                let mut shown = handle_error(e, verbosity);
                let ghost before = shown@;
                if !fatal {
                    shown.set(0, ShellLine::Status(e.message.clone()));
                }
                proof {
                    let n = shown_causes(e.causes@, verbosity == Verbosity::Verbose);
                    lemma_first_internal_bounds(e.causes@);
                    assert(shown@.subrange(1, 1 + n) =~= before.subrange(1, 1 + n));
                    if n < e.causes@.len() {
                        assert(shown@[1 + n] == before[1 + n]);
                    }
                }
                lines = shown;
            }
        },
    }
    ErrorReport { lines, exit_code: err.exit_code }
}

} // verus!
