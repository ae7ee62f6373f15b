//! Classification of filesystem change events.
//!
//! The observation transport delivers one [`Delivery`] at a time to the
//! control loop. [`classify`] decides, per delivery, whether the gallery
//! must be regenerated, whether a transport failure must be logged, or
//! whether the event is ignored. Regenerations happen strictly one per
//! triggering delivery, in delivery order, with no coalescing;
//! [`lemma_sequential_regenerations`] states the resulting bound.

use vstd::prelude::*;

verus! {

/// What kind of entry a creation or removal event concerns.
#[derive(Clone, Copy, PartialEq, Eq, Structural, Debug)]
pub enum EntryKind {
    Any,
    File,
    Folder,
    Other,
}

/// The sub-kind of a modification event.
#[derive(Clone, Copy, PartialEq, Eq, Structural, Debug)]
pub enum ModifyKind {
    Any,
    Data,
    Metadata,
    Name,
    Other,
}

/// One filesystem change notification, reduced to the attributes the
/// classifier reads.
#[derive(Clone, Copy, PartialEq, Eq, Structural, Debug)]
pub enum FsEventKind {
    Any,
    Access,
    Create(EntryKind),
    Modify(ModifyKind),
    Remove(EntryKind),
    Other,
}

/// One hand-off from the observation transport: either a filesystem
/// event or a transport-level failure report.
#[derive(Clone, Copy, PartialEq, Eq, Structural, Debug)]
pub enum Delivery {
    Event(FsEventKind),
    Failure,
}

/// What the control loop must do with one delivery.
#[derive(Clone, Copy, PartialEq, Eq, Structural, Debug)]
pub enum Action {
    Regenerate,
    LogError,
    Ignore,
}

/// Whether an event kind is a content-affecting change: a file was
/// created, a file was removed, or something was modified in a way
/// that is not metadata-only. Directory-only changes (folder creation
/// or removal) and access events are not triggers.
pub open spec fn is_trigger(k: FsEventKind) -> bool {
    match k {
        FsEventKind::Create(e) => e == EntryKind::File,
        FsEventKind::Remove(e) => e == EntryKind::File,
        FsEventKind::Modify(m) => m != ModifyKind::Metadata,
        _ => false,
    }
}

/// The action owed for one delivery: regenerate on a content-affecting
/// event, log a transport failure and continue, ignore everything else.
pub open spec fn action_for(d: Delivery) -> Action {
    match d {
        Delivery::Event(k) => if is_trigger(k) {
            Action::Regenerate
        } else {
            Action::Ignore
        },
        Delivery::Failure => Action::LogError,
    }
}

/// Classify one delivery from the observation transport.
pub fn classify(d: &Delivery) -> (a: Action)
    ensures
        a == action_for(*d),
{
    match d {
        Delivery::Event(k) => {
            let triggers = match k {
                FsEventKind::Create(e) => matches!(e, EntryKind::File),
                FsEventKind::Remove(e) => matches!(e, EntryKind::File),
                FsEventKind::Modify(m) => !matches!(m, ModifyKind::Metadata),
                _ => false,
            };
            if triggers {
                Action::Regenerate
            } else {
                Action::Ignore
            }
        },
        Delivery::Failure => Action::LogError,
    }
}

/// How many regenerations a sequence of deliveries causes when each is
/// classified and handled in delivery order.
pub open spec fn regen_count(ds: Seq<Delivery>) -> nat
    decreases ds.len(),
{
    if ds.len() == 0 {
        0
    } else {
        regen_count(ds.drop_last()) + (if action_for(ds.last()) == Action::Regenerate {
            1nat
        } else {
            0nat
        })
    }
}

/// Law: a rapid sequence of N deliveries causes at most N regenerations
/// (one per delivery, never more), and a sequence made entirely of
/// file-creation events causes exactly one regeneration per event.
pub proof fn lemma_sequential_regenerations(ds: Seq<Delivery>)
    ensures
        regen_count(ds) <= ds.len(),
        (forall|i: int|
            0 <= i < ds.len() ==> ds[i] == Delivery::Event(
                FsEventKind::Create(EntryKind::File),
            )) ==> regen_count(ds) == ds.len(),
    decreases ds.len(),
{
    if ds.len() > 0 {
        let rest = ds.drop_last();
        lemma_sequential_regenerations(rest);
        assert(forall|i: int| 0 <= i < rest.len() ==> rest[i] == ds[i]);
    }
}

} // verus!
