use navidrome_import::run::{
    archived_name, next, poll_interval, settle_wait, settled, watch, Ending, Event, Flags, Move,
    Sighting, Step,
};

const PLAIN: Flags = Flags { dry_run: false, no_tags: false };

fn full_run(flags: Flags) -> Vec<Step> {
    let mut steps = Vec::new();
    let mut event = Event::Parsed { playlists: 2 };
    loop {
        let step = next(&flags, event);
        steps.push(step);
        event = match step {
            Step::SaveExport => Event::ExportSaved,
            Step::IndexLibrary => Event::Indexed { keys: 1, isrcs: 0 },
            Step::Resolve => Event::Resolved,
            Step::WriteTags => Event::Tagged,
            Step::WritePlaylists => Event::PlaylistsWritten,
            Step::WriteUnmatched => Event::UnmatchedWritten,
            Step::Archive => Event::Archived,
            Step::End(_) => return steps,
        };
    }
}

#[test]
fn import_takes_every_step_in_order() {
    assert_eq!(
        full_run(PLAIN),
        vec![
            Step::SaveExport,
            Step::IndexLibrary,
            Step::Resolve,
            Step::WriteTags,
            Step::WritePlaylists,
            Step::WriteUnmatched,
            Step::Archive,
            Step::End(Ending::Complete),
        ]
    );
}

#[test]
fn dry_run_writes_nothing() {
    for no_tags in [false, true] {
        assert_eq!(
            full_run(Flags { dry_run: true, no_tags }),
            vec![Step::IndexLibrary, Step::Resolve, Step::End(Ending::DryRun)]
        );
    }
}

#[test]
fn no_tags_leaves_audio_alone() {
    let steps = full_run(Flags { dry_run: false, no_tags: true });
    assert!(!steps.contains(&Step::WriteTags));
    assert!(steps.contains(&Step::WritePlaylists));
    assert_eq!(steps.last(), Some(&Step::End(Ending::Complete)));
}

#[test]
fn import_ends_early_with_nothing_to_match() {
    assert_eq!(next(&PLAIN, Event::Parsed { playlists: 0 }), Step::End(Ending::NoPlaylists));
    assert_eq!(
        next(&PLAIN, Event::Indexed { keys: 0, isrcs: 0 }),
        Step::End(Ending::EmptyLibrary)
    );
    assert_eq!(next(&PLAIN, Event::Indexed { keys: 0, isrcs: 1 }), Step::Resolve);
}

#[test]
fn single_run_does_not_wait() {
    assert_eq!(watch(true, Sighting::Pending { exports: 0 }), Move::Stop);
    assert_eq!(watch(true, Sighting::Pending { exports: 2 }), Move::Run);
    assert_eq!(watch(true, Sighting::Ran), Move::Stop);
    assert_eq!(watch(true, Sighting::Unreadable), Move::Stop);
}

#[test]
fn watching_waits_for_exports() {
    assert_eq!(watch(false, Sighting::Slept), Move::Poll);
    assert_eq!(watch(false, Sighting::Unreadable), Move::Sleep);
    assert_eq!(watch(false, Sighting::Pending { exports: 0 }), Move::Sleep);
    assert_eq!(watch(false, Sighting::Pending { exports: 1 }), Move::Observe);
    assert_eq!(watch(false, Sighting::Observed { settled: false }), Move::Sleep);
    assert_eq!(watch(false, Sighting::Observed { settled: true }), Move::Run);
    assert_eq!(watch(false, Sighting::Ran), Move::Sleep);
}

#[test]
fn waits_are_bounded() {
    assert_eq!(poll_interval(0), 1);
    assert_eq!(poll_interval(30), 30);
    assert_eq!(settle_wait(30), 3);
    assert_eq!(settle_wait(3), 3);
    assert_eq!(settle_wait(1), 1);
}

#[test]
fn exports_settle_once_their_sizes_hold() {
    assert_eq!(settled(&vec![10, 20], &vec![10, 20]), None);
    assert_eq!(settled(&vec![10, 20, 5], &vec![10, 21, 6]), Some(1));
    assert_eq!(settled(&vec![0, 20], &vec![0, 20]), Some(0));
    assert_eq!(settled(&vec![], &vec![]), None);
}

#[test]
fn consumed_exports_are_stamped() {
    assert_eq!(archived_name(1700000000, "/import/my_spotify.zip"), "1700000000-my_spotify.zip");
    assert_eq!(archived_name(0, "/"), "0-");
}

#[test]
fn stamps_keep_exports_apart() {
    let names = [
        archived_name(1, "a.zip"),
        archived_name(11, "a.zip"),
        archived_name(1, "1-a.zip"),
        archived_name(2, "a.zip"),
    ];
    for (i, a) in names.iter().enumerate() {
        for b in &names[i + 1..] {
            assert_ne!(a, b);
        }
    }
}
