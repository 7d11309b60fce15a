//! The shutdown coordinator. Shell lifecycle signals arrive here; the first
//! terminating one runs the cleanup sequence — take the child process
//! handle, terminate it, remove the lock marker — and every later signal of
//! either kind is a no-op. Which signal kinds terminate is a policy choice:
//! some shell integrations keep running on a close request and only a
//! destroy signal drives real cleanup. The caller serializes signal
//! delivery (one lock around the coordinator); the flag here makes cleanup
//! happen at most once per supervisor run.

use vstd::prelude::*;

verus! {

/// A shell lifecycle signal.
#[derive(Clone, Copy, Debug, PartialEq, Eq, Structural)]
pub enum SignalKind {
    /// The user asked to close the window.
    CloseRequested,
    /// The window is gone.
    Destroyed,
}

/// Which signal kinds run the cleanup. A destroy signal always does; a
/// close request only where the integration wants it to (the alternative
/// keeps the supervisor reachable for external automation).
#[derive(Clone, Copy, Debug, PartialEq, Eq, Structural)]
pub struct ShutdownPolicy {
    pub close_requested_cleans: bool,
}

/// The cleanup side effects owed by the caller after one signal: the child
/// process to terminate forcefully, if one was held, and whether to remove
/// the lock marker. Both are absent for every signal but the first
/// terminating one.
#[derive(Clone, Copy, Debug, PartialEq, Eq, Structural)]
pub struct CleanupOutcome {
    pub terminate_pid: Option<u32>,
    pub remove_lock: bool,
}

/// The shutdown coordinator: the exclusive owner of the child process
/// handle and the cleanup flag.
#[derive(Clone, Copy, Debug, PartialEq, Eq, Structural)]
pub struct Coordinator {
    /// Whether cleanup has run on this supervisor run.
    pub cleaned: bool,
    /// The supervised child process, by its process identifier; absent when
    /// the spawn failed or the handle was taken.
    pub child: Option<u32>,
}

/// Whether a signal kind runs the cleanup under a policy.
pub open spec fn triggers(p: ShutdownPolicy, k: SignalKind) -> bool {
    match k {
        SignalKind::Destroyed => true,
        SignalKind::CloseRequested => p.close_requested_cleans,
    }
}

/// One signal's effect: on the first terminating signal the handle is taken
/// and invalidated and both side effects are owed; otherwise nothing
/// changes and nothing is owed.
pub open spec fn spec_on_signal(c: Coordinator, p: ShutdownPolicy, k: SignalKind) -> (
    Coordinator,
    CleanupOutcome,
) {
    if triggers(p, k) && !c.cleaned {
        (
            Coordinator { cleaned: true, child: None },
            CleanupOutcome { terminate_pid: c.child, remove_lock: true },
        )
    } else {
        (c, CleanupOutcome { terminate_pid: None, remove_lock: false })
    }
}

impl Coordinator {
    /// A fresh coordinator owning the spawned child, or owning nothing when
    /// the spawn failed — the supervisor still runs, degraded.
    pub fn new(child: Option<u32>) -> (r: Coordinator)
        ensures
            r == (Coordinator { cleaned: false, child: child }),
    {
        Coordinator { cleaned: false, child }
    }

    /// Feeds one shell lifecycle signal in and returns the side effects the
    /// caller owes. Duplicate signals of either kind are no-ops.
    pub fn on_signal(&mut self, policy: ShutdownPolicy, kind: SignalKind) -> (r: CleanupOutcome)
        ensures
            (*final(self), r) == spec_on_signal(*old(self), policy, kind),
    {
        let terminating = match kind {
            SignalKind::Destroyed => true,
            SignalKind::CloseRequested => policy.close_requested_cleans,
        };
        if terminating && !self.cleaned {
            self.cleaned = true;
            let pid = self.child;
            self.child = None;
            CleanupOutcome { terminate_pid: pid, remove_lock: true }
        } else {
            CleanupOutcome { terminate_pid: None, remove_lock: false }
        }
    }
}

/// The coordinator after a whole run of signals.
pub open spec fn run_signals(c: Coordinator, p: ShutdownPolicy, ks: Seq<SignalKind>) -> Coordinator
    decreases ks.len(),
{
    if ks.len() == 0 {
        c
    } else {
        run_signals(spec_on_signal(c, p, ks[0]).0, p, ks.drop_first())
    }
}

/// How many signals of a run owe a termination.
pub open spec fn count_terminations(c: Coordinator, p: ShutdownPolicy, ks: Seq<SignalKind>) -> nat
    decreases ks.len(),
{
    if ks.len() == 0 {
        0
    } else {
        (if spec_on_signal(c, p, ks[0]).1.terminate_pid is Some {
            1nat
        } else {
            0nat
        }) + count_terminations(spec_on_signal(c, p, ks[0]).0, p, ks.drop_first())
    }
}

/// How many signals of a run owe a lock removal.
pub open spec fn count_removals(c: Coordinator, p: ShutdownPolicy, ks: Seq<SignalKind>) -> nat
    decreases ks.len(),
{
    if ks.len() == 0 {
        0
    } else {
        (if spec_on_signal(c, p, ks[0]).1.remove_lock {
            1nat
        } else {
            0nat
        }) + count_removals(spec_on_signal(c, p, ks[0]).0, p, ks.drop_first())
    }
}

/// Once cleanup has run, no signal of any later run owes anything.
pub proof fn lemma_cleaned_owes_nothing(c: Coordinator, p: ShutdownPolicy, ks: Seq<SignalKind>)
    requires
        c.cleaned,
    ensures
        count_terminations(c, p, ks) == 0,
        count_removals(c, p, ks) == 0,
    decreases ks.len(),
{
    if ks.len() > 0 {
        lemma_cleaned_owes_nothing(spec_on_signal(c, p, ks[0]).0, p, ks.drop_first());
    }
}

/// Cleanup is terminal: once it has run, no signal changes the coordinator
/// again.
pub proof fn lemma_done_is_terminal(c: Coordinator, p: ShutdownPolicy, ks: Seq<SignalKind>)
    requires
        c.cleaned,
    ensures
        run_signals(c, p, ks) == c,
    decreases ks.len(),
{
    if ks.len() > 0 {
        lemma_done_is_terminal(spec_on_signal(c, p, ks[0]).0, p, ks.drop_first());
    }
}

/// A run of signals reaches the terminal state exactly when some signal of
/// it terminates under the policy, and the terminal state holds no child:
/// the handle was taken and invalidated on the way.
pub proof fn lemma_reaches_done(c: Coordinator, p: ShutdownPolicy, ks: Seq<SignalKind>)
    requires
        !c.cleaned,
    ensures
        run_signals(c, p, ks).cleaned <==> (exists|i: int|
            0 <= i < ks.len() && triggers(p, #[trigger] ks[i])),
        run_signals(c, p, ks).cleaned ==> run_signals(c, p, ks).child is None,
        !run_signals(c, p, ks).cleaned ==> run_signals(c, p, ks) == c,
    decreases ks.len(),
{
    if ks.len() > 0 {
        let c2 = spec_on_signal(c, p, ks[0]).0;
        if triggers(p, ks[0]) {
            lemma_done_is_terminal(c2, p, ks.drop_first());
        } else {
            lemma_reaches_done(c2, p, ks.drop_first());
            assert forall|i: int| 0 <= i < ks.len() && triggers(p, #[trigger] ks[i]) implies exists|
                j: int,
            | 0 <= j < ks.drop_first().len() && triggers(p, #[trigger] ks.drop_first()[j]) by {
                assert(i != 0);
                assert(ks.drop_first()[i - 1] == ks[i]);
            }
            assert forall|j: int|
                0 <= j < ks.drop_first().len() && triggers(
                    p,
                    #[trigger] ks.drop_first()[j],
                ) implies exists|i: int| 0 <= i < ks.len() && triggers(p, #[trigger] ks[i]) by {
                assert(ks[j + 1] == ks.drop_first()[j]);
            }
        }
    }
}

/// For every run of shutdown signals, however terminating signals repeat or
/// interleave with ignored ones, the cleanup side effects happen exactly
/// once: one lock removal if and only if some signal of the run terminates
/// under the policy, and one termination if and only if additionally a
/// child was held when the run began.
pub proof fn lemma_cleanup_exactly_once(c: Coordinator, p: ShutdownPolicy, ks: Seq<SignalKind>)
    requires
        !c.cleaned,
    ensures
        count_removals(c, p, ks) <= 1,
        count_terminations(c, p, ks) <= 1,
        (count_removals(c, p, ks) == 1) <==> (exists|i: int|
            0 <= i < ks.len() && triggers(p, #[trigger] ks[i])),
        (count_terminations(c, p, ks) == 1) <==> (c.child is Some && exists|i: int|
            0 <= i < ks.len() && triggers(p, #[trigger] ks[i])),
    decreases ks.len(),
{
    if ks.len() > 0 {
        let c2 = spec_on_signal(c, p, ks[0]).0;
        if triggers(p, ks[0]) {
            lemma_cleaned_owes_nothing(c2, p, ks.drop_first());
            assert(triggers(p, ks[0]));
        } else {
            lemma_cleanup_exactly_once(c2, p, ks.drop_first());
            assert forall|i: int| 0 <= i < ks.len() && triggers(p, #[trigger] ks[i]) implies exists|
                j: int,
            | 0 <= j < ks.drop_first().len() && triggers(p, #[trigger] ks.drop_first()[j]) by {
                assert(i != 0);
                assert(ks.drop_first()[i - 1] == ks[i]);
            }
            assert forall|j: int|
                0 <= j < ks.drop_first().len() && triggers(
                    p,
                    #[trigger] ks.drop_first()[j],
                ) implies exists|i: int| 0 <= i < ks.len() && triggers(p, #[trigger] ks[i]) by {
                assert(ks[j + 1] == ks.drop_first()[j]);
            }
        }
    }
}

} // verus!
