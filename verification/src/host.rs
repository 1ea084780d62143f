//! The decisions of the host that keeps one unit of game logic loaded and
//! swaps in a new build while the game runs.
//!
//! The host itself watches the file system, loads units and calls into
//! them. What it should do with what it sees is decided here: whether a
//! burst of file events asks for a reload, and which steps follow an
//! attempt to load, in which order.

use vstd::prelude::*;

verus! {

/// What the file watcher reports of one change: whether something was
/// created, and the file names of the paths concerned (`None` for a path
/// without a file name).
pub struct WatchEvent {
    pub created: bool,
    pub names: Vec<Option<String>>,
}

/// One thing for the host to do.
#[derive(Debug, Clone, Copy, PartialEq, Eq, Structural)]
pub enum HostStep {
    /// Give up: there is no unit to run.
    Abort,
    /// Say that loading failed and go on with the unit at hand.
    Report,
    /// Ask the new unit for the state that outlives every reload.
    MakePersistent,
    /// Run what is left of every task of the old unit, without waiting,
    /// then drop the old unit's short-lived state.
    DrainTasks,
    /// Let go of the old unit.
    Unload,
    /// Call the new unit from now on.
    Adopt,
    /// Ask the new unit for fresh short-lived state.
    MakeFleeting,
}

/// Two file names are the same: both missing, or both there and equal.
pub open spec fn same_name(a: Option<String>, b: Option<String>) -> bool {
    match (a, b) {
        (Some(x), Some(y)) => x@ == y@,
        (None, None) => true,
        _ => false,
    }
}

/// The event says that a file named like `target` was created.
pub open spec fn announces(event: WatchEvent, target: Option<String>) -> bool {
    event.created && exists|i: int|
        0 <= i < event.names@.len() && same_name(#[trigger] event.names@[i], target)
}

/// The events ask for a reload: one of them announces the target, and the
/// target is there to be loaded. However many events announce it, they ask
/// for one reload.
pub open spec fn reload_due(events: Seq<WatchEvent>, target: Option<String>, present: bool) -> bool {
    present && exists|i: int| 0 <= i < events.len() && announces(#[trigger] events[i], target)
}

/// The steps that follow an attempt to load a unit, in order.
///
/// The first unit brings the persistent state with it; a failure to load
/// it is the end. A later unit takes over only after the tasks of the old
/// one have run to their end and the old one is let go; the persistent
/// state stays. A later failure is reported and changes nothing.
pub open spec fn steps_after_load(running: bool, loaded: bool) -> Seq<HostStep> {
    if !running && !loaded {
        seq![HostStep::Abort]
    } else if !running {
        seq![HostStep::MakePersistent, HostStep::Adopt, HostStep::MakeFleeting]
    } else if !loaded {
        seq![HostStep::Report]
    } else {
        seq![HostStep::DrainTasks, HostStep::Unload, HostStep::Adopt, HostStep::MakeFleeting]
    }
}

/// Whether two file names are the same.
pub fn names_match(a: &Option<String>, b: &Option<String>) -> (same: bool)
    ensures
        same == same_name(*a, *b),
{
    match (a, b) {
        (Some(x), Some(y)) => *x == *y,
        (None, None) => true,
        _ => false,
    }
}

/// Whether `event` says that a file named like `target` was created.
pub fn event_announces(event: &WatchEvent, target: &Option<String>) -> (yes: bool)
    ensures
        yes == announces(*event, *target),
{
    if !event.created {
        return false;
    }
    let mut i: usize = 0;
    while i < event.names.len()
        invariant
            event.created,
            i <= event.names@.len(),
            forall|j: int| 0 <= j < i ==> !same_name(#[trigger] event.names@[j], *target),
        decreases event.names@.len() - i,
    {
        if names_match(&event.names[i], target) {
            assert(same_name(event.names@[i as int], *target));
            return true;
        }
        i = i + 1;
    }
    false
}

/// Whether the events drained in one poll ask for a reload of the unit
/// named `target`, which is `present` or not at this moment.
pub fn reload_wanted(events: &Vec<WatchEvent>, target: &Option<String>, present: bool) -> (wanted: bool)
    ensures
        wanted == reload_due(events@, *target, present),
{
    let mut modified = false;
    let mut i: usize = 0;
    while i < events.len()
        invariant
            i <= events@.len(),
            modified == exists|j: int| 0 <= j < i && announces(#[trigger] events@[j], *target),
        decreases events@.len() - i,
    {
        if event_announces(&events[i], target) {
            modified = true;
        }
        i = i + 1;
    }
    modified && present
}

/// The steps that follow an attempt to load a unit: `running` says whether
/// a unit is loaded already, `loaded` whether the attempt succeeded.
pub fn after_load(running: bool, loaded: bool) -> (steps: Vec<HostStep>)
    ensures
        steps@ == steps_after_load(running, loaded),
{
    let mut steps: Vec<HostStep> = Vec::new();
    if !running && !loaded {
        steps.push(HostStep::Abort);
    } else if !running {
        steps.push(HostStep::MakePersistent);
        steps.push(HostStep::Adopt);
        steps.push(HostStep::MakeFleeting);
    } else if !loaded {
        steps.push(HostStep::Report);
    } else {
        steps.push(HostStep::DrainTasks);
        steps.push(HostStep::Unload);
        steps.push(HostStep::Adopt);
        steps.push(HostStep::MakeFleeting);
    }
    assert(steps@ =~= steps_after_load(running, loaded));
    steps
}

/// Whenever a unit is replaced, the tasks of the old unit are drained
/// before it is let go and before the new one is called; and the
/// persistent state is made for the first unit only.
pub proof fn lemma_drained_before_replaced(running: bool, loaded: bool)
    ensures
        forall|i: int|
            #![trigger steps_after_load(running, loaded)[i]]
            0 <= i < steps_after_load(running, loaded).len() && running && (steps_after_load(
                running,
                loaded,
            )[i] == HostStep::Unload || steps_after_load(running, loaded)[i] == HostStep::Adopt)
                ==> exists|j: int|
                0 <= j < i && #[trigger] steps_after_load(running, loaded)[j]
                    == HostStep::DrainTasks,
        steps_after_load(running, loaded).contains(HostStep::MakePersistent) ==> !running,
        steps_after_load(running, loaded).contains(HostStep::Abort) <==> !running && !loaded,
{
    let steps = steps_after_load(running, loaded);
    if running && loaded {
        assert(steps[0] == HostStep::DrainTasks);
    }
    if !running && !loaded {
        assert(steps[0] == HostStep::Abort);
    }
}

} // verus!
