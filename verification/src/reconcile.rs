//! The hotplug orchestrator's decisions: the debounce state machine and the
//! reconcile diff.
//!
//! The surrounding loop (filesystem watcher, timers, process management) is
//! ordinary I/O and lives outside the crate; it feeds events into
//! [`debounce_step`] and performs the actions it returns, and on each
//! debounced pass hands the freshly discovered group keys to
//! [`plan_reconcile`] to learn which instances to start and stop.

use vstd::prelude::*;
use crate::classify::{clone_string, dev_reps, Device, DeviceType, device_eq};

verus! {

/// Debounce loop state: waiting for a first notification, or inside the
/// quiet window after one.
#[derive(Clone, Copy, Debug, PartialEq, Eq, Structural)]
pub enum DebounceState {
    Idle,
    Settling,
}

/// An event delivered to the debounce loop.
#[derive(Clone, Copy, Debug, PartialEq, Eq, Structural)]
pub enum WatchEvent {
    /// A filesystem-change notification arrived intact.
    Notification,
    /// A notification carrying a delivery error: logged, and treated as a
    /// no-op that neither extends nor shortens the quiet window.
    NotificationError,
    /// The quiet window expired with no intervening notification.
    Timeout,
    /// The watcher channel closed.
    Closed,
}

/// What the surrounding loop must do after a step.
#[derive(Clone, Copy, Debug, PartialEq, Eq, Structural)]
pub enum DebounceAction {
    /// Nothing: keep whatever timer is running.
    Ignore,
    /// (Re)arm the quiet-window timer to its full length.
    ArmWindow,
    /// Perform one discovery + reconcile pass.
    RunReconcile,
    /// Tear the loop down.
    Shutdown,
}

/// The debounce transition relation: one reconcile pass per settle period,
/// triggered only by quiet-window expiry; errors never touch the window.
pub open spec fn spec_debounce_step(s: DebounceState, e: WatchEvent) -> (
    DebounceState,
    DebounceAction,
) {
    match e {
        WatchEvent::Closed => (s, DebounceAction::Shutdown),
        WatchEvent::Notification => (DebounceState::Settling, DebounceAction::ArmWindow),
        WatchEvent::NotificationError => (s, DebounceAction::Ignore),
        WatchEvent::Timeout => match s {
            DebounceState::Settling => (DebounceState::Idle, DebounceAction::RunReconcile),
            DebounceState::Idle => (DebounceState::Idle, DebounceAction::Ignore),
        },
    }
}

/// Advances the debounce state machine by one event.
pub fn debounce_step(s: DebounceState, e: WatchEvent) -> (r: (DebounceState, DebounceAction))
    ensures
        r == spec_debounce_step(s, e),
{
    match e {
        WatchEvent::Closed => (s, DebounceAction::Shutdown),
        WatchEvent::Notification => (DebounceState::Settling, DebounceAction::ArmWindow),
        WatchEvent::NotificationError => (s, DebounceAction::Ignore),
        WatchEvent::Timeout => match s {
            DebounceState::Settling => (DebounceState::Idle, DebounceAction::RunReconcile),
            DebounceState::Idle => (DebounceState::Idle, DebounceAction::Ignore),
        },
    }
}

/// A group key's mathematical content: the rep sequence of its descriptors.
pub open spec fn key_rep(g: Vec<Device>) -> Seq<(int, Seq<char>)> {
    dev_reps(g@)
}

/// The key reps of a list of group keys.
pub open spec fn key_reps(ks: Seq<Vec<Device>>) -> Seq<Seq<(int, Seq<char>)>> {
    ks.map_values(|g: Vec<Device>| key_rep(g))
}

/// Whether a key occurs in a key list, compared by content.
pub open spec fn key_in(ks: Seq<Seq<(int, Seq<char>)>>, k: Seq<(int, Seq<char>)>) -> bool {
    exists|i: int| 0 <= i < ks.len() && ks[i] == k
}

/// The orchestrator's plan for one debounced pass: which running instances
/// to stop and which new groups to start.  Instances whose key appears in
/// both lists are carried over untouched.
pub struct ReconcilePlan {
    /// Parallel to the running list: `true` means stop that instance.
    pub stop: Vec<bool>,
    /// Parallel to the new group list: `true` means start an instance.
    pub start: Vec<bool>,
}

/// Compares two group keys by content.
pub fn group_key_eq(a: &Vec<Device>, b: &Vec<Device>) -> (r: bool)
    ensures
        r == (key_rep(*a) == key_rep(*b)),
{
    if a.len() != b.len() {
        proof {
            assert(key_rep(*a).len() != key_rep(*b).len());
        }
        return false;
    }
    let n = a.len();
    let mut i: usize = 0;
    while i < n
        invariant
            i <= n,
            n == a@.len() == b@.len(),
            forall|k: int| 0 <= k < i ==> key_rep(*a)[k] == key_rep(*b)[k],
        decreases n - i,
    {
        if !device_eq(&a[i], &b[i]) {
            proof {
                assert(key_rep(*a)[i as int] != key_rep(*b)[i as int]);
            }
            return false;
        }
        i = i + 1;
    }
    proof {
        assert(key_rep(*a) =~= key_rep(*b));
    }
    true
}

/// Whether `k`'s key occurs in `ks`, by content.
fn key_list_contains(ks: &Vec<Vec<Device>>, k: &Vec<Device>) -> (r: bool)
    ensures
        r == key_in(key_reps(ks@), key_rep(*k)),
{
    let n = ks.len();
    let mut i: usize = 0;
    while i < n
        invariant
            i <= n,
            n == ks@.len(),
            forall|j: int| 0 <= j < i ==> key_reps(ks@)[j] != key_rep(*k),
        decreases n - i,
    {
        if group_key_eq(&ks[i], k) {
            proof {
                assert(key_reps(ks@)[i as int] == key_rep(*k));
            }
            return true;
        }
        i = i + 1;
    }
    false
}

/// Diffs the freshly discovered group keys against the running instances:
/// an instance stops exactly when its key no longer occurs among the new
/// groups, and a group starts exactly when its key is not already running.
pub fn plan_reconcile(running: &Vec<Vec<Device>>, new_groups: &Vec<Vec<Device>>) -> (r:
    ReconcilePlan)
    ensures
        r.stop@.len() == running@.len(),
        r.start@.len() == new_groups@.len(),
        forall|i: int|
            0 <= i < running@.len() ==> r.stop@[i] == !key_in(
                key_reps(new_groups@),
                #[trigger] key_reps(running@)[i],
            ),
        forall|j: int|
            0 <= j < new_groups@.len() ==> r.start@[j] == !key_in(
                key_reps(running@),
                #[trigger] key_reps(new_groups@)[j],
            ),
{
    let mut stop: Vec<bool> = Vec::new();
    let mut i: usize = 0;
    while i < running.len()
        invariant
            i <= running@.len(),
            stop@.len() == i,
            forall|k: int|
                0 <= k < i ==> stop@[k] == !key_in(
                    key_reps(new_groups@),
                    #[trigger] key_reps(running@)[k],
                ),
        decreases running.len() - i,
    {
        let present = key_list_contains(new_groups, &running[i]);
        stop.push(!present);
        i = i + 1;
    }
    let mut start: Vec<bool> = Vec::new();
    let mut j: usize = 0;
    while j < new_groups.len()
        invariant
            j <= new_groups@.len(),
            start@.len() == j,
            forall|k: int|
                0 <= k < j ==> start@[k] == !key_in(
                    key_reps(running@),
                    #[trigger] key_reps(new_groups@)[k],
                ),
        decreases new_groups.len() - j,
    {
        let present = key_list_contains(running, &new_groups[j]);
        start.push(!present);
        j = j + 1;
    }
    ReconcilePlan { stop, start }
}

/// The command-line tag of a device kind in the child-invocation contract.
pub open spec fn spec_kind_tag(t: DeviceType) -> Seq<char> {
    match t {
        DeviceType::Keys => "keys"@,
        DeviceType::Pad => "pad"@,
    }
}

/// Builds a started instance's argument list per the invocation contract:
/// the configuration path, then for each device of the group, in the
/// group's canonical order, its kind tag and its path.
#[verifier::loop_isolation(false)]
pub fn child_args(config_path: &String, group: &Vec<Device>) -> (r: Vec<String>)
    ensures
        r@.len() == 1 + 2 * group@.len(),
        r@[0]@ == config_path@,
        forall|k: int|
            0 <= k < group@.len() ==> (#[trigger] r@[1 + 2 * k])@ == spec_kind_tag(
                group@[k].device,
            ) && r@[2 + 2 * k]@ == group@[k].path@,
{
    let mut out: Vec<String> = Vec::new();
    out.push(clone_string(config_path));
    let mut k: usize = 0;
    while k < group.len()
        invariant
            k <= group@.len(),
            out@.len() == 1 + 2 * k,
            out@[0]@ == config_path@,
            forall|j: int|
                0 <= j < k ==> (#[trigger] out@[1 + 2 * j])@ == spec_kind_tag(group@[j].device)
                    && out@[2 + 2 * j]@ == group@[j].path@,
        decreases group.len() - k,
    {
        match group[k].device {
            DeviceType::Keys => {
                out.push(String::from_str("keys"));
            },
            DeviceType::Pad => {
                out.push(String::from_str("pad"));
            },
        }
        out.push(clone_string(&group[k].path));
        k = k + 1;
        proof {
            assert(out@[1 + 2 * ((k - 1) as int)]@ == spec_kind_tag(
                group@[(k - 1) as int].device,
            ));
            assert(out@[2 + 2 * ((k - 1) as int)]@ == group@[(k - 1) as int].path@);
            assert forall|j: int|
                0 <= j < k implies (#[trigger] out@[1 + 2 * j])@ == spec_kind_tag(
                group@[j].device,
            ) && out@[2 + 2 * j]@ == group@[j].path@ by {
                if j < k - 1 {
                    assert(out@[1 + 2 * j] == out@.subrange(0, out@.len() - 2)[1 + 2 * j]);
                }
            }
        }
    }
    out
}

/// Running the reconcile pass again with no change on disk is a no-op: when
/// the discovered group keys equal the running keys, the plan stops nothing
/// and starts nothing.
pub proof fn lemma_reconcile_idempotent(
    running: Seq<Seq<(int, Seq<char>)>>,
    new_groups: Seq<Seq<(int, Seq<char>)>>,
)
    requires
        new_groups == running,
    ensures
        forall|i: int| 0 <= i < running.len() ==> key_in(new_groups, #[trigger] running[i]),
        forall|j: int| 0 <= j < new_groups.len() ==> key_in(running, #[trigger] new_groups[j]),
{
    assert forall|i: int| 0 <= i < running.len() implies key_in(
        new_groups,
        #[trigger] running[i],
    ) by {
        assert(new_groups[i] == running[i]);
    }
}

} // verus!
