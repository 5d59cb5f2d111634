//! The change watcher's decisions: which file-system events call for a new
//! scan, and when that scan may start.  At most one scan runs at a time;
//! events that arrive while one runs are folded into a single scan behind
//! it.

use vstd::prelude::*;

verus! {

/// The kind of a file-system event.
#[derive(Clone, Copy, Debug, PartialEq, Eq, Structural)]
pub enum ChangeKind {
    /// Something happened; the source could not say what.
    Any,
    /// A file was opened, read or closed.
    Access,
    /// A file or directory came to be.
    Create,
    /// A file or directory was changed.
    Modify,
    /// A file or directory went away.
    Remove,
    /// An event of some other kind.
    Other,
}

/// What the watcher's caller is to do.
#[derive(Clone, Copy, Debug, PartialEq, Eq, Structural)]
pub enum WatchAction {
    /// Start a scan now.
    StartScan,
    /// Do nothing.
    Idle,
}

/// The watcher's state: whether a scan runs, and whether an event has
/// arrived since it started.
#[derive(Clone, Copy, Debug, PartialEq, Eq, Structural)]
pub struct Watcher {
    pub scanning: bool,
    pub pending: bool,
}

/// An event calls for a scan where something was created, changed or
/// removed.
pub open spec fn calls_for_scan(kind: ChangeKind) -> bool {
    kind == ChangeKind::Create || kind == ChangeKind::Modify || kind == ChangeKind::Remove
}

/// The state after an event, and what to do about it.  An event that calls
/// for a scan starts one where none runs, and is noted where one runs.
pub open spec fn after_event(w: Watcher, kind: ChangeKind) -> (Watcher, WatchAction) {
    if !calls_for_scan(kind) {
        (w, WatchAction::Idle)
    } else if w.scanning {
        (Watcher { pending: true, ..w }, WatchAction::Idle)
    } else {
        (Watcher { scanning: true, pending: false }, WatchAction::StartScan)
    }
}

/// The state after a scan has ended, with or without success, and what to
/// do then.  Where an event was noted meanwhile, one more scan starts.
pub open spec fn after_scan(w: Watcher) -> (Watcher, WatchAction) {
    if w.scanning && w.pending {
        (Watcher { scanning: true, pending: false }, WatchAction::StartScan)
    } else {
        (Watcher { scanning: false, pending: false }, WatchAction::Idle)
    }
}

/// Whether an event calls for a scan.
pub fn is_qualifying(kind: ChangeKind) -> (b: bool)
    ensures
        b == calls_for_scan(kind),
{
    match kind {
        ChangeKind::Create => true,
        ChangeKind::Modify => true,
        ChangeKind::Remove => true,
        _ => false,
    }
}

impl Watcher {
    /// A watcher with no scan running.
    pub fn new() -> (w: Watcher)
        ensures
            w == (Watcher { scanning: false, pending: false }),
    {
        Watcher { scanning: false, pending: false }
    }

    /// Takes a file-system event and says whether to start a scan.
    pub fn on_event(&mut self, kind: ChangeKind) -> (action: WatchAction)
        ensures
            (*final(self), action) == after_event(*old(self), kind),
    {
        if !is_qualifying(kind) {
            WatchAction::Idle
        } else if self.scanning {
            self.pending = true;
            WatchAction::Idle
        } else {
            self.scanning = true;
            self.pending = false;
            WatchAction::StartScan
        }
    }

    /// Takes the end of the running scan, whatever its outcome, and says
    /// whether to start the next.
    pub fn on_scan_finished(&mut self) -> (action: WatchAction)
        ensures
            (*final(self), action) == after_scan(*old(self)),
    {
        if self.scanning && self.pending {
            self.pending = false;
            WatchAction::StartScan
        } else {
            self.scanning = false;
            self.pending = false;
            WatchAction::Idle
        }
    }
}

/// What the watcher's caller tells it.
pub enum WatchInput {
    Event(ChangeKind),
    ScanFinished,
}

/// One step of the watcher.
pub open spec fn step(w: Watcher, input: WatchInput) -> (Watcher, WatchAction) {
    match input {
        WatchInput::Event(kind) => after_event(w, kind),
        WatchInput::ScanFinished => after_scan(w),
    }
}

/// The number of scans running after the inputs, where `running` ran before
/// them and the caller starts a scan exactly when told to and reports the end
/// of a scan only while one runs.
pub open spec fn scans_running(w: Watcher, running: int, inputs: Seq<WatchInput>) -> int
    decreases inputs.len(),
{
    if inputs.len() == 0 {
        running
    } else {
        let before = scans_running(w, running, inputs.drop_last());
        let ended = if inputs.last() is ScanFinished {
            1int
        } else {
            0int
        };
        let started = if step(state_after(w, inputs.drop_last()), inputs.last()).1
            == WatchAction::StartScan {
            1int
        } else {
            0int
        };
        before - ended + started
    }
}

/// The watcher's state after the inputs.
pub open spec fn state_after(w: Watcher, inputs: Seq<WatchInput>) -> Watcher
    decreases inputs.len(),
{
    if inputs.len() == 0 {
        w
    } else {
        step(state_after(w, inputs.drop_last()), inputs.last()).0
    }
}

/// The caller reports the end of a scan only while the watcher has one
/// running.
pub open spec fn ends_only_running(w: Watcher, inputs: Seq<WatchInput>) -> bool {
    forall|n: int|
        0 <= n < inputs.len() && inputs[n] is ScanFinished ==> #[trigger] state_after(
            w,
            inputs.take(n),
        ).scanning
}

/// Single flight: whatever events arrive, and whenever the scans end, there
/// is never more than one scan running, and one runs exactly while the
/// watcher says so.  An event noted as pending always has a running scan
/// before it.
pub proof fn law_single_flight(inputs: Seq<WatchInput>)
    requires
        ends_only_running(Watcher { scanning: false, pending: false }, inputs),
    ensures
        0 <= scans_running(Watcher { scanning: false, pending: false }, 0, inputs) <= 1,
        scans_running(Watcher { scanning: false, pending: false }, 0, inputs) == 1
            <==> state_after(Watcher { scanning: false, pending: false }, inputs).scanning,
        state_after(Watcher { scanning: false, pending: false }, inputs).pending ==> state_after(
            Watcher { scanning: false, pending: false },
            inputs,
        ).scanning,
    decreases inputs.len(),
{
    let w = Watcher { scanning: false, pending: false };
    if inputs.len() > 0 {
        let head = inputs.drop_last();
        assert forall|n: int| 0 <= n < head.len() && head[n] is ScanFinished implies #[trigger] state_after(
            w,
            head.take(n),
        ).scanning by {
            assert(head.take(n) =~= inputs.take(n));
            assert(inputs[n] == head[n]);
        }
        law_single_flight(head);
        assert(inputs.take(inputs.len() - 1) =~= head);
        if inputs.last() is ScanFinished {
            assert(state_after(w, inputs.take(inputs.len() - 1)).scanning);
        }
    }
}

/// Coalescing: events that arrive while a scan runs start no scan of their
/// own, however many they are, and the end of that scan starts exactly one.
pub proof fn law_burst_is_one_rescan(kinds: Seq<ChangeKind>, w: Watcher)
    requires
        w.scanning,
        exists|i: int| 0 <= i < kinds.len() && calls_for_scan(kinds[i]),
    ensures
        forall|n: int|
            0 <= n < kinds.len() ==> after_event(
                #[trigger] state_after(w, events(kinds.take(n))),
                kinds[n],
            ).1 == WatchAction::Idle,
        after_scan(state_after(w, events(kinds))) == (
            Watcher { scanning: true, pending: false },
            WatchAction::StartScan,
        ),
        after_scan(after_scan(state_after(w, events(kinds))).0) == (
            Watcher { scanning: false, pending: false },
            WatchAction::Idle,
        ),
{
    let witness = choose|i: int| 0 <= i < kinds.len() && calls_for_scan(kinds[i]);
    lemma_burst(kinds, w, kinds.len() as int);
    assert(kinds.take(kinds.len() as int) =~= kinds);
    assert forall|n: int| 0 <= n < kinds.len() implies after_event(
        #[trigger] state_after(w, events(kinds.take(n))),
        kinds[n],
    ).1 == WatchAction::Idle by {
        lemma_burst(kinds, w, n);
    }
    assert(calls_for_scan(kinds[witness]));
}

/// The inputs that stand for a run of events.
pub open spec fn events(kinds: Seq<ChangeKind>) -> Seq<WatchInput> {
    Seq::new(kinds.len(), |i: int| WatchInput::Event(kinds[i]))
}

/// During a burst the scan keeps running, and an event is pending as soon
/// as one of the burst called for a scan.
proof fn lemma_burst(kinds: Seq<ChangeKind>, w: Watcher, n: int)
    requires
        w.scanning,
        0 <= n <= kinds.len(),
    ensures
        state_after(w, events(kinds.take(n))).scanning,
        (exists|i: int| 0 <= i < n && calls_for_scan(kinds[i])) ==> state_after(
            w,
            events(kinds.take(n)),
        ).pending,
    decreases n,
{
    if n > 0 {
        lemma_burst(kinds, w, n - 1);
        let now = events(kinds.take(n));
        assert(now.drop_last() =~= events(kinds.take(n - 1)));
        assert(now.last() == WatchInput::Event(kinds[n - 1]));
        if exists|i: int| 0 <= i < n && calls_for_scan(kinds[i]) {
            let i = choose|i: int| 0 <= i < n && calls_for_scan(kinds[i]);
            if i < n - 1 {
                assert(exists|j: int| 0 <= j < n - 1 && calls_for_scan(kinds[j]));
            }
        }
    } else {
        assert(events(kinds.take(0)) =~= seq![]);
    }
}

} // verus!
