use image_gallery::event::{classify, Action, Delivery, EntryKind, FsEventKind, ModifyKind};

#[test]
fn file_creation_triggers_regeneration() {
    let d = Delivery::Event(FsEventKind::Create(EntryKind::File));
    assert_eq!(classify(&d), Action::Regenerate);
}

#[test]
fn file_removal_triggers_regeneration() {
    let d = Delivery::Event(FsEventKind::Remove(EntryKind::File));
    assert_eq!(classify(&d), Action::Regenerate);
}

#[test]
fn content_modification_triggers_regeneration() {
    for m in [ModifyKind::Any, ModifyKind::Data, ModifyKind::Name, ModifyKind::Other] {
        let d = Delivery::Event(FsEventKind::Modify(m));
        assert_eq!(classify(&d), Action::Regenerate);
    }
}

#[test]
fn metadata_only_modification_is_ignored() {
    let d = Delivery::Event(FsEventKind::Modify(ModifyKind::Metadata));
    assert_eq!(classify(&d), Action::Ignore);
}

#[test]
fn directory_only_changes_are_ignored() {
    for e in [EntryKind::Folder, EntryKind::Any, EntryKind::Other] {
        assert_eq!(classify(&Delivery::Event(FsEventKind::Create(e))), Action::Ignore);
        assert_eq!(classify(&Delivery::Event(FsEventKind::Remove(e))), Action::Ignore);
    }
}

#[test]
fn access_and_unknown_events_are_ignored() {
    for k in [FsEventKind::Access, FsEventKind::Any, FsEventKind::Other] {
        assert_eq!(classify(&Delivery::Event(k)), Action::Ignore);
    }
}

#[test]
fn transport_failure_is_logged_not_fatal() {
    assert_eq!(classify(&Delivery::Failure), Action::LogError);
}

#[test]
fn burst_of_creations_regenerates_once_per_event() {
    let n = 25;
    let burst = vec![Delivery::Event(FsEventKind::Create(EntryKind::File)); n];
    let regenerations = burst
        .iter()
        .filter(|d| classify(d) == Action::Regenerate)
        .count();
    assert_eq!(regenerations, n);
}

#[test]
fn mixed_burst_regenerates_at_most_once_per_event() {
    let burst = vec![
        Delivery::Event(FsEventKind::Create(EntryKind::File)),
        Delivery::Event(FsEventKind::Access),
        Delivery::Event(FsEventKind::Modify(ModifyKind::Data)),
        Delivery::Failure,
        Delivery::Event(FsEventKind::Remove(EntryKind::File)),
    ];
    let regenerations = burst
        .iter()
        .filter(|d| classify(d) == Action::Regenerate)
        .count();
    assert!(regenerations <= burst.len());
    assert_eq!(regenerations, 3);
}
