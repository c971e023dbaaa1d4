//! What the importer does next: the order of the steps of an import, when the drop directory is
//! ready for one, and where the consumed exports go.

use vstd::prelude::*;

use crate::sources::{file_name, file_name_of};
use crate::text::{decimal, decimal_text, digit};

verus! {

/// What an import leaves alone.
#[derive(Clone, Copy, Debug)]
pub struct Flags {
    /// Match and report, write nothing.
    pub dry_run: bool,
    /// Only write .m3u files; leave the audio files untouched.
    pub no_tags: bool,
}

/// What happened in an import.
#[derive(Clone, Copy, PartialEq, Eq, Structural, Debug)]
pub enum Event {
    /// The exports were read, and there are so many playlists in them.
    Parsed { playlists: usize },
    ExportSaved,
    /// The library was indexed, and has so many keys and ISRCs.
    Indexed { keys: usize, isrcs: usize },
    Resolved,
    Tagged,
    PlaylistsWritten,
    UnmatchedWritten,
    Archived,
}

/// How an import ends.
#[derive(Clone, Copy, PartialEq, Eq, Structural, Debug)]
pub enum Ending {
    NoPlaylists,
    EmptyLibrary,
    DryRun,
    Complete,
}

/// What an import does next.
#[derive(Clone, Copy, PartialEq, Eq, Structural, Debug)]
pub enum Step {
    SaveExport,
    IndexLibrary,
    Resolve,
    WriteTags,
    WritePlaylists,
    WriteUnmatched,
    Archive,
    End(Ending),
}

/// The step that follows an event.
pub open spec fn step_after(flags: Flags, event: Event) -> Step {
    match event {
        Event::Parsed { playlists } => if playlists == 0 {
            Step::End(Ending::NoPlaylists)
        } else if flags.dry_run {
            Step::IndexLibrary
        } else {
            Step::SaveExport
        },
        Event::ExportSaved => Step::IndexLibrary,
        Event::Indexed { keys, isrcs } => if keys == 0 && isrcs == 0 {
            Step::End(Ending::EmptyLibrary)
        } else {
            Step::Resolve
        },
        Event::Resolved => if flags.dry_run {
            Step::End(Ending::DryRun)
        } else if flags.no_tags {
            Step::WritePlaylists
        } else {
            Step::WriteTags
        },
        Event::Tagged => Step::WritePlaylists,
        Event::PlaylistsWritten => Step::WriteUnmatched,
        Event::UnmatchedWritten => Step::Archive,
        Event::Archived => Step::End(Ending::Complete),
    }
}

/// Decides on the next step.
pub fn next(flags: &Flags, event: Event) -> (r: Step)
    ensures
        r == step_after(*flags, event),
{
    match event {
        Event::Parsed { playlists } => if playlists == 0 {
            Step::End(Ending::NoPlaylists)
        } else if flags.dry_run {
            Step::IndexLibrary
        } else {
            Step::SaveExport
        },
        Event::ExportSaved => Step::IndexLibrary,
        Event::Indexed { keys, isrcs } => if keys == 0 && isrcs == 0 {
            Step::End(Ending::EmptyLibrary)
        } else {
            Step::Resolve
        },
        Event::Resolved => if flags.dry_run {
            Step::End(Ending::DryRun)
        } else if flags.no_tags {
            Step::WritePlaylists
        } else {
            Step::WriteTags
        },
        Event::Tagged => Step::WritePlaylists,
        Event::PlaylistsWritten => Step::WriteUnmatched,
        Event::UnmatchedWritten => Step::Archive,
        Event::Archived => Step::End(Ending::Complete),
    }
}

/// Whether an event is what comes of a step.
pub open spec fn comes_of(step: Step, event: Event) -> bool {
    match step {
        Step::SaveExport => event is ExportSaved,
        Step::IndexLibrary => event is Indexed,
        Step::Resolve => event is Resolved,
        Step::WriteTags => event is Tagged,
        Step::WritePlaylists => event is PlaylistsWritten,
        Step::WriteUnmatched => event is UnmatchedWritten,
        Step::Archive => event is Archived,
        Step::End(_) => false,
    }
}

/// The events of an import up to some point: the exports are read, and then each event comes of
/// the step that the one before it led to.
pub open spec fn is_import(flags: Flags, events: Seq<Event>) -> bool {
    &&& events.len() > 0
    &&& events[0] is Parsed
    &&& forall|i: int|
        0 < i < events.len() ==> comes_of(step_after(flags, events[i - 1]), #[trigger] events[i])
}

/// Whether a step writes anything anywhere.
pub open spec fn writes(step: Step) -> bool {
    !(step is IndexLibrary || step is Resolve || step is End)
}

/// A dry run writes nothing.
pub proof fn law_dry_run_writes_nothing(flags: Flags, events: Seq<Event>, i: int)
    requires
        flags.dry_run,
        is_import(flags, events),
        0 <= i < events.len(),
    ensures
        !writes(step_after(flags, events[i])),
    decreases i,
{
    if i > 0 {
        law_dry_run_writes_nothing(flags, events, i - 1);
        assert(comes_of(step_after(flags, events[i - 1]), events[i]));
    }
}

/// Audio files are left untouched where that was asked for.
pub proof fn law_no_tags_leaves_audio_alone(flags: Flags, events: Seq<Event>, i: int)
    requires
        flags.no_tags,
        is_import(flags, events),
        0 <= i < events.len(),
    ensures
        !(step_after(flags, events[i]) is WriteTags),
{
}

/// Exports are moved aside only after everything that is made of them is written: an import that
/// fails on the way leaves them where they are.
pub proof fn law_archive_comes_last(flags: Flags, events: Seq<Event>, i: int)
    requires
        is_import(flags, events),
        0 <= i < events.len(),
        step_after(flags, events[i]) is Archive,
    ensures
        events.take(i + 1).contains(Event::ExportSaved),
        events.take(i + 1).contains(Event::Resolved),
        !flags.no_tags ==> events.take(i + 1).contains(Event::Tagged),
        events.take(i + 1).contains(Event::PlaylistsWritten),
        events.take(i + 1).contains(Event::UnmatchedWritten),
{
    let seen = events.take(i + 1);
    assert(seen[i] == Event::UnmatchedWritten);
    lemma_came_from(flags, events, i);
    assert(seen[i - 1] == Event::PlaylistsWritten);
    lemma_came_from(flags, events, i - 1);
    if seen[i - 2] == Event::Tagged {
        lemma_came_from(flags, events, i - 2);
        lemma_before_resolved(flags, events, i - 3);
        assert(seen[i - 3] == Event::Resolved);
        assert(seen[i - 5] == Event::ExportSaved);
    } else {
        lemma_before_resolved(flags, events, i - 2);
        assert(seen[i - 2] == Event::Resolved);
        assert(seen[i - 4] == Event::ExportSaved);
    }
}

proof fn lemma_before_resolved(flags: Flags, events: Seq<Event>, i: int)
    requires
        is_import(flags, events),
        !flags.dry_run,
        0 <= i < events.len(),
        events[i] is Resolved,
    ensures
        i >= 2,
        events[i - 2] is ExportSaved,
{
    lemma_came_from(flags, events, i);
    lemma_came_from(flags, events, i - 1);
    if events[i - 2] is Parsed {
        assert(step_after(flags, events[i - 2]) is IndexLibrary);
    }
}

proof fn lemma_came_from(flags: Flags, events: Seq<Event>, i: int)
    requires
        is_import(flags, events),
        0 <= i < events.len(),
        !(events[i] is Parsed),
    ensures
        i > 0,
        comes_of(step_after(flags, events[i - 1]), events[i]),
{
}

/// An import comes to an end.
pub proof fn law_import_ends(flags: Flags, events: Seq<Event>)
    requires
        is_import(flags, events),
    ensures
        events.len() <= 8,
{
    lemma_rank(flags, events, events.len() - 1);
}

spec fn rank(event: Event) -> int {
    match event {
        Event::Parsed { .. } => 0,
        Event::ExportSaved => 1,
        Event::Indexed { .. } => 2,
        Event::Resolved => 3,
        Event::Tagged => 4,
        Event::PlaylistsWritten => 5,
        Event::UnmatchedWritten => 6,
        Event::Archived => 7,
    }
}

proof fn lemma_rank(flags: Flags, events: Seq<Event>, i: int)
    requires
        is_import(flags, events),
        0 <= i < events.len(),
    ensures
        rank(events[i]) >= i,
    decreases i,
{
    if i > 0 {
        lemma_rank(flags, events, i - 1);
        assert(comes_of(step_after(flags, events[i - 1]), events[i]));
    }
}

/// What happened to the drop directory.
#[derive(Clone, Copy, PartialEq, Eq, Structural, Debug)]
pub enum Sighting {
    /// It cannot be read.
    Unreadable,
    /// It was read, and so many exports are in it.
    Pending { exports: usize },
    /// The exports were observed twice.
    Observed { settled: bool },
    /// An import was run.
    Ran,
    /// The time between two polls has passed.
    Slept,
}

/// What to do about the drop directory.
#[derive(Clone, Copy, PartialEq, Eq, Structural, Debug)]
pub enum Move {
    /// Look for exports.
    Poll,
    /// Observe the sizes of the exports twice. A file that is still being copied in would parse as
    /// a truncated archive.
    Observe,
    Run,
    Sleep,
    Stop,
}

/// What follows on a sighting, in a single run or when watching.
pub open spec fn move_after(once: bool, sighting: Sighting) -> Move {
    match sighting {
        Sighting::Unreadable | Sighting::Ran => if once {
            Move::Stop
        } else {
            Move::Sleep
        },
        Sighting::Pending { exports } => if exports == 0 {
            if once {
                Move::Stop
            } else {
                Move::Sleep
            }
        } else if once {
            Move::Run
        } else {
            Move::Observe
        },
        Sighting::Observed { settled } => if settled {
            Move::Run
        } else {
            Move::Sleep
        },
        Sighting::Slept => Move::Poll,
    }
}

/// Decides what to do about the drop directory.
pub fn watch(once: bool, sighting: Sighting) -> (r: Move)
    ensures
        r == move_after(once, sighting),
{
    match sighting {
        Sighting::Unreadable | Sighting::Ran => if once {
            Move::Stop
        } else {
            Move::Sleep
        },
        Sighting::Pending { exports } => if exports == 0 {
            if once {
                Move::Stop
            } else {
                Move::Sleep
            }
        } else if once {
            Move::Run
        } else {
            Move::Observe
        },
        Sighting::Observed { settled } => if settled {
            Move::Run
        } else {
            Move::Sleep
        },
        Sighting::Slept => Move::Poll,
    }
}

/// Watching never stops, and runs an import only on exports that have settled.
pub proof fn law_watching_waits_for_exports(sighting: Sighting)
    ensures
        !(move_after(false, sighting) is Stop),
        move_after(false, sighting) is Run ==> sighting == (Sighting::Observed { settled: true }),
{
}

/// Seconds between two polls.
pub open spec fn poll_seconds(asked: nat) -> nat {
    if asked < 1 {
        1
    } else {
        asked
    }
}

/// Seconds between the two observations of an export.
pub open spec fn settle_seconds(interval: nat) -> nat {
    if interval < 3 {
        interval
    } else {
        3
    }
}

/// Polls are as far apart as asked for, but never less than a second, and exports are observed for
/// no longer than that nor for more than three seconds.
pub proof fn law_waits_are_bounded(asked: nat)
    ensures
        poll_seconds(asked) >= 1,
        asked >= 1 ==> poll_seconds(asked) == asked,
        1 <= settle_seconds(poll_seconds(asked)) <= 3,
        settle_seconds(poll_seconds(asked)) <= poll_seconds(asked),
        asked >= 3 ==> settle_seconds(poll_seconds(asked)) == 3,
        1 <= asked <= 3 ==> settle_seconds(poll_seconds(asked)) == asked,
{
}

/// Seconds between two polls: those asked for, but at least one.
pub fn poll_interval(asked: u64) -> (r: u64)
    ensures
        r == poll_seconds(asked as nat),
        r == if asked == 0 {
            1
        } else {
            asked
        },
{
    if asked == 0 {
        1
    } else {
        asked
    }
}

/// Seconds between the two observations of an export: no more than between two polls, and no more
/// than three.
pub fn settle_wait(interval: u64) -> (r: u64)
    ensures
        r == settle_seconds(interval as nat),
        r == if interval < 3 {
            interval
        } else {
            3
        },
{
    if interval < 3 {
        interval
    } else {
        3
    }
}

/// Whether an export may still be growing, by its size at two observations. An export that cannot
/// be observed has no size, and no more has an empty one.
pub open spec fn is_growing(before: u64, now: u64) -> bool {
    now != before || now == 0
}

/// Finds the first export that may still be growing; none once every export has held the same
/// size across two observations.
pub fn settled(before: &Vec<u64>, now: &Vec<u64>) -> (r: Option<usize>)
    requires
        before@.len() == now@.len(),
    ensures
        match r {
            Some(i) => {
                &&& i < now@.len()
                &&& is_growing(before@[i as int], now@[i as int])
                &&& forall|j: int| 0 <= j < i ==> !is_growing(#[trigger] before@[j], now@[j])
            },
            None => forall|j: int|
                0 <= j < now@.len() ==> !is_growing(#[trigger] before@[j], now@[j]),
        },
{
    for i in 0..now.len()
        invariant
            before@.len() == now@.len(),
            forall|j: int| 0 <= j < i ==> !is_growing(#[trigger] before@[j], now@[j]),
    {
        if now[i] != before[i] || now[i] == 0 {
            return Some(i);
        }
    }
    None
}

/// The name that a consumed export is kept under: the seconds since the epoch and its own name.
pub open spec fn archived(stamp: nat, path: Seq<char>) -> Seq<char> {
    decimal(stamp) + "-"@ + match file_name(path) {
        Some(name) => name,
        None => Seq::empty(),
    }
}

/// Names a consumed export.
pub fn archived_name(stamp: u64, path: &str) -> (r: String)
    ensures
        r@ == archived(stamp as nat, path@),
{
    let mut r = decimal_text(stamp as u128);
    r.append("-");
    if let Some(name) = file_name_of(path) {
        r.append(name.as_str());
    }
    assert(r@ =~= archived(stamp as nat, path@));
    r
}

/// Exports that were consumed at different seconds, or that have different names, do not overwrite
/// each other.
pub proof fn law_archived_names_differ(a: nat, b: nat, x: Seq<char>, y: Seq<char>)
    requires
        file_name(x) is Some,
        file_name(y) is Some,
        archived(a, x) == archived(b, y),
    ensures
        a == b,
        file_name(x) == file_name(y),
{
    reveal_strlit("-");
    let s = archived(a, x);
    let p = decimal(a);
    let q = decimal(b);
    lemma_digits(a);
    lemma_digits(b);
    assert(s[p.len() as int] == '-');
    assert(s[q.len() as int] == '-');
    if p.len() < q.len() {
        assert(s[p.len() as int] == q[p.len() as int]);
    } else if q.len() < p.len() {
        assert(s[q.len() as int] == p[q.len() as int]);
    }
    assert(p =~= s.take(p.len() as int));
    assert(q =~= s.take(q.len() as int));
    lemma_decimal_is_unique(a, b);
    let rest = s.skip(p.len() as int + 1);
    assert(rest =~= file_name(x)->0);
    assert(rest =~= file_name(y)->0);
}

proof fn lemma_digits(n: nat)
    ensures
        decimal(n).len() > 0,
        forall|i: int| 0 <= i < decimal(n).len() ==> #[trigger] decimal(n)[i] != '-',
    decreases n,
{
    if n >= 10 {
        lemma_digits(n / 10);
    }
}

proof fn lemma_decimal_is_unique(a: nat, b: nat)
    requires
        decimal(a) == decimal(b),
    ensures
        a == b,
    decreases a,
{
    lemma_digits(a / 10);
    lemma_digits(b / 10);
    assert(decimal(a).last() == digit(a % 10));
    assert(decimal(b).last() == digit(b % 10));
    if a >= 10 && b >= 10 {
        assert(decimal(a).drop_last() =~= decimal(a / 10));
        assert(decimal(b).drop_last() =~= decimal(b / 10));
        lemma_decimal_is_unique(a / 10, b / 10);
    }
}

/// An import ends with `NoPlaylists` if and only if no playlist was parsed, with `EmptyLibrary` if
/// and only if the library has neither keys nor ISRCs, with `DryRun` if and only if everything was
/// matched and nothing is to be written, and with `Complete` if and only if the exports were moved
/// aside. Nothing else ends it.
pub proof fn law_how_imports_end(flags: Flags, event: Event)
    ensures
        step_after(flags, event) == Step::End(Ending::NoPlaylists) <==> event == (Event::Parsed {
            playlists: 0,
        }),
        step_after(flags, event) == Step::End(Ending::EmptyLibrary) <==> event == (
        Event::Indexed { keys: 0, isrcs: 0 }),
        step_after(flags, event) == Step::End(Ending::DryRun) <==> event is Resolved
            && flags.dry_run,
        step_after(flags, event) == Step::End(Ending::Complete) <==> event is Archived,
{
}

/// Every import of a playlist over a library with something in it goes through. If it is no dry
/// run it ends complete: everything was written, and the exports were moved aside. A dry run ends
/// with everything matched.
pub proof fn law_import_goes_through(flags: Flags, events: Seq<Event>)
    requires
        is_import(flags, events),
        step_after(flags, events.last()) is End,
        events[0] matches Event::Parsed { playlists } && playlists > 0,
        forall|i: int|
            0 <= i < events.len() ==> (#[trigger] events[i] matches Event::Indexed { keys, isrcs }
                ==> keys > 0 || isrcs > 0),
    ensures
        flags.dry_run ==> {
            &&& step_after(flags, events.last()) == Step::End(Ending::DryRun)
            &&& events.contains(Event::Resolved)
        },
        !flags.dry_run ==> {
            &&& step_after(flags, events.last()) == Step::End(Ending::Complete)
            &&& events.contains(Event::ExportSaved)
            &&& events.contains(Event::Resolved)
            &&& !flags.no_tags ==> events.contains(Event::Tagged)
            &&& events.contains(Event::PlaylistsWritten)
            &&& events.contains(Event::UnmatchedWritten)
            &&& events.contains(Event::Archived)
        },
{
    let last = events.len() - 1;
    assert(events[last] == events.last());
    if events[last] is Parsed && last > 0 {
        assert(comes_of(step_after(flags, events[last - 1]), events[last]));
    }
    if flags.dry_run {
        law_dry_run_writes_nothing(flags, events, last);
        if events[last] is Archived {
            lemma_came_from(flags, events, last);
            law_dry_run_writes_nothing(flags, events, last - 1);
        }
        assert(events[last] == Event::Resolved);
    } else {
        assert(events[last] == Event::Archived);
        lemma_came_from(flags, events, last);
        law_archive_comes_last(flags, events, last - 1);
        lemma_seen(events, last, Event::ExportSaved);
        lemma_seen(events, last, Event::Resolved);
        lemma_seen(events, last, Event::Tagged);
        lemma_seen(events, last, Event::PlaylistsWritten);
        lemma_seen(events, last, Event::UnmatchedWritten);
    }
}

proof fn lemma_seen(events: Seq<Event>, n: int, event: Event)
    requires
        0 <= n <= events.len(),
    ensures
        events.take(n).contains(event) ==> events.contains(event),
{
    if events.take(n).contains(event) {
        let i = choose|i: int| 0 <= i < n && events.take(n)[i] == event;
        assert(events[i] == event);
    }
}

/// Exports that are dropped get imported: at once in a single run, and as soon as they have
/// settled when watching. Where nothing is to be done a single run stops, and watching goes on to
/// the next poll.
pub proof fn law_exports_get_imported(exports: usize)
    ensures
        exports > 0 ==> move_after(true, Sighting::Pending { exports }) is Run,
        exports > 0 ==> move_after(false, Sighting::Pending { exports }) is Observe,
        move_after(false, Sighting::Observed { settled: true }) is Run,
        move_after(false, Sighting::Observed { settled: false }) is Sleep,
        move_after(true, Sighting::Pending { exports: 0 }) is Stop,
        move_after(false, Sighting::Pending { exports: 0 }) is Sleep,
        move_after(true, Sighting::Ran) is Stop,
        move_after(false, Sighting::Ran) is Sleep,
        move_after(true, Sighting::Unreadable) is Stop,
        move_after(false, Sighting::Unreadable) is Sleep,
        forall|once: bool| #[trigger] move_after(once, Sighting::Slept) is Poll,
{
}

/// An export has settled if and only if it has a size and held it.
pub proof fn law_settled_exports_hold_their_size(before: u64, now: u64)
    ensures
        !is_growing(before, now) <==> before == now && now > 0,
{
}

/// A consumed export keeps its name behind the stamp.
pub proof fn law_archived_export_keeps_its_name(stamp: nat, path: Seq<char>)
    requires
        file_name(path) is Some,
    ensures
        archived(stamp, path) == decimal(stamp) + seq!['-'] + file_name(path)->Some_0,
{
    reveal_strlit("-");
    assert("-"@ =~= seq!['-']);
}

} // verus!
