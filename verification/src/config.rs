//! The disguises and the order in which the `t` key cycles through them.
use vstd::prelude::*;

verus! {

/// The disguise in which the reader shows the text.
#[derive(Debug, Clone, Copy, PartialEq, Eq, Structural)]
pub enum DisplayMode {
    /// Looks like a server log.
    Log,
    /// Plain text with a progress counter.
    Minimal,
    /// Looks like a code comment.
    Comment,
    /// Looks like `git log` output.
    GitLog,
    /// Looks like `npm install` output.
    NpmInstall,
    /// Looks like pytest output.
    Pytest,
    /// Looks like `docker logs` output.
    DockerLogs,
    /// Looks like `kubectl logs` output.
    KubectlLogs,
}

/// Whether `m` is one of the three disguises that the `t` key cycles
/// through: Log, Minimal and Comment.
pub open spec fn in_cycle(m: DisplayMode) -> bool {
    m == DisplayMode::Log || m == DisplayMode::Minimal || m == DisplayMode::Comment
}

/// The mode applied `k` times to `next`.
pub open spec fn next_n(m: DisplayMode, k: nat) -> DisplayMode
    decreases k,
{
    if k == 0 {
        m
    } else {
        next_spec(next_n(m, (k - 1) as nat))
    }
}

/// The mode that follows `m` when `t` is pressed: Log, Minimal and Comment
/// in turn; a mode chosen on the command line outside that cycle goes on
/// through the other disguises and back to Log.
pub open spec fn next_spec(m: DisplayMode) -> DisplayMode {
    match m {
        DisplayMode::Log => DisplayMode::Minimal,
        DisplayMode::Minimal => DisplayMode::Comment,
        DisplayMode::Comment => DisplayMode::Log,
        DisplayMode::GitLog => DisplayMode::NpmInstall,
        DisplayMode::NpmInstall => DisplayMode::Pytest,
        DisplayMode::Pytest => DisplayMode::DockerLogs,
        DisplayMode::DockerLogs => DisplayMode::KubectlLogs,
        DisplayMode::KubectlLogs => DisplayMode::Log,
    }
}

impl DisplayMode {
    /// The mode that follows `self` when `t` is pressed.
    pub fn next(self) -> (r: Self)
        ensures
            r == next_spec(self),
    {
        match self {
            DisplayMode::Log => DisplayMode::Minimal,
            DisplayMode::Minimal => DisplayMode::Comment,
            DisplayMode::Comment => DisplayMode::Log,
            DisplayMode::GitLog => DisplayMode::NpmInstall,
            DisplayMode::NpmInstall => DisplayMode::Pytest,
            DisplayMode::Pytest => DisplayMode::DockerLogs,
            DisplayMode::DockerLogs => DisplayMode::KubectlLogs,
            DisplayMode::KubectlLogs => DisplayMode::Log,
        }
    }
}

/// Pressing `t` cycles Log, Minimal and Comment: three presses bring back
/// the mode one started from, fewer do not, and each of the three is
/// reached; from any other mode, at most five presses reach Log and the
/// cycle.
pub proof fn lemma_next_cycles_through_all_modes(m: DisplayMode)
    ensures
        in_cycle(m) ==> next_n(m, 3) == m,
        in_cycle(m) ==> forall|k: nat| 0 < k < 3 ==> #[trigger] next_n(m, k) != m,
        in_cycle(m) ==> next_n(m, 1) != next_n(m, 2) && in_cycle(next_n(m, 1)) && in_cycle(
            next_n(m, 2),
        ),
        in_cycle(m) ==> in_cycle(next_spec(m)),
        !in_cycle(m) ==> exists|k: nat| 1 <= k <= 5 && #[trigger] next_n(m, k) == DisplayMode::Log,
{
    reveal_with_fuel(next_n, 6);
    if !in_cycle(m) {
        if m == DisplayMode::GitLog {
            assert(next_n(m, 5) == DisplayMode::Log);
        } else if m == DisplayMode::NpmInstall {
            assert(next_n(m, 4) == DisplayMode::Log);
        } else if m == DisplayMode::Pytest {
            assert(next_n(m, 3) == DisplayMode::Log);
        } else if m == DisplayMode::DockerLogs {
            assert(next_n(m, 2) == DisplayMode::Log);
        } else {
            assert(next_n(m, 1) == DisplayMode::Log);
        }
    }
}

} // verus!
