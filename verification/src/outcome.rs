//! What came of matching: which file is in which playlists, and what is missing.

use vstd::hash_map::StringHashMap;
use vstd::prelude::*;

use crate::library::Library;
use crate::matching::key_of;
use crate::model::{playlist_views, track_views, Playlist, PlaylistView, Track, TrackView};
use crate::order::{insert_text, lemma_ascending_is_distinct, strictly_ascending};
use crate::resolve::{match_of, match_track, Method, Settings};
use crate::text::{lemma_push_contains, views};

verus! {

/// What each track of a playlist was matched to, if anything.
pub type Found = Seq<Option<(usize, Method)>>;

/// The files of a playlist that were found, in playlist order.
pub open spec fn hits(found: Found) -> Seq<usize>
    decreases found.len(),
{
    if found.len() == 0 {
        Seq::empty()
    } else {
        match found.last() {
            Some((file, _)) => hits(found.drop_last()).push(file),
            None => hits(found.drop_last()),
        }
    }
}

/// How many tracks were matched by a method.
pub open spec fn matched_by(found: Found, method: Method) -> nat
    decreases found.len(),
{
    if found.len() == 0 {
        0
    } else {
        matched_by(found.drop_last(), method) + match found.last() {
            Some((_, m)) if m == method => 1nat,
            _ => 0,
        }
    }
}

/// A text, or a question mark for the empty one.
pub open spec fn or_question(text: Seq<char>) -> Seq<char> {
    if text.len() == 0 {
        seq!['?']
    } else {
        text
    }
}

/// A track as the report shows it: "artist - title".
pub open spec fn track_line(track: TrackView) -> Seq<char> {
    or_question(track.artist) + " - "@ + or_question(track.title)
}

/// The tracks of a playlist that were not found, as the report shows them.
pub open spec fn misses(tracks: Seq<TrackView>, found: Found) -> Seq<Seq<char>>
    decreases found.len(),
{
    if found.len() == 0 {
        Seq::empty()
    } else {
        let before = misses(tracks, found.drop_last());
        match found.last() {
            Some(_) => before,
            None => before.push(track_line(tracks[found.len() - 1])),
        }
    }
}

fn question_or(text: &str) -> (r: String)
    ensures
        r@ == or_question(text@),
{
    if text.is_empty() {
        let mut r = String::new();
        r.push('?');
        assert(r@ =~= seq!['?']);
        r
    } else {
        String::from_str(text)
    }
}

/// A track as the report shows it: "artist - title".
pub fn show_track(track: &Track) -> (r: String)
    ensures
        r@ == track_line(track@),
{
    let mut r = question_or(track.artist.as_str());
    r.append(" - ");
    let title = question_or(track.title.as_str());
    r.append(title.as_str());
    r
}

/// How many tracks were matched by which method.
#[derive(Clone, Copy, Debug)]
pub struct Counts {
    pub isrc: u128,
    pub exact: u128,
    pub fuzzy: u128,
}

impl Counts {
    /// The count of a method.
    pub open spec fn of(self, method: Method) -> nat {
        match method {
            Method::Isrc => self.isrc as nat,
            Method::Exact => self.exact as nat,
            Method::Fuzzy => self.fuzzy as nat,
        }
    }
}

/// What came of matching.
pub struct Outcome {
    /// For each file, every playlist it belongs to.
    pub membership: Vec<Vec<String>>,
    /// By playlist name, the files that were found, in playlist order.
    pub resolved: StringHashMap<Vec<usize>>,
    /// How many tracks of each playlist were found.
    pub matched: Vec<usize>,
    /// By playlist, "artist - title" of everything that missed.
    pub missing: Vec<(String, Vec<String>)>,
    pub by_method: Counts,
}

/// Whether a playlist of some name has a file.
pub open spec fn is_member(
    playlists: Seq<PlaylistView>,
    found: Seq<Found>,
    file: usize,
    name: Seq<char>,
) -> bool {
    exists|i: int|
        0 <= i < playlists.len() && (#[trigger] playlists[i]).name == name && hits(
            found[i],
        ).contains(file)
}

/// The files of the last playlist of some name.
pub open spec fn last_hits(
    playlists: Seq<PlaylistView>,
    found: Seq<Found>,
    name: Seq<char>,
) -> Option<Seq<usize>>
    decreases playlists.len(),
{
    if playlists.len() == 0 {
        None
    } else if playlists.last().name == name {
        Some(hits(found[playlists.len() - 1]))
    } else {
        last_hits(playlists.drop_last(), found, name)
    }
}

/// The playlists of which a track was not found, with what was not.
pub open spec fn missing_of(playlists: Seq<PlaylistView>, found: Seq<Found>) -> Seq<
    (Seq<char>, Seq<Seq<char>>),
>
    decreases playlists.len(),
{
    if playlists.len() == 0 {
        Seq::empty()
    } else {
        let before = missing_of(playlists.drop_last(), found);
        let missed = misses(playlists.last().tracks, found[playlists.len() - 1]);
        if missed.len() > 0 {
            before.push((playlists.last().name, missed))
        } else {
            before
        }
    }
}

/// How many tracks of the first playlists were matched by a method.
pub open spec fn total_by(found: Seq<Found>, n: nat, method: Method) -> nat
    decreases n,
{
    if n == 0 {
        0
    } else {
        total_by(found, (n - 1) as nat, method) + matched_by(found[n - 1], method)
    }
}

/// Names with lists of texts.
pub open spec fn missing_views(missing: Seq<(String, Vec<String>)>) -> Seq<
    (Seq<char>, Seq<Seq<char>>),
> {
    missing.map_values(|m: (String, Vec<String>)| (m.0@, views(m.1@)))
}

impl Outcome {
    /// What comes of playlists whose tracks were matched to some of a number of files.
    pub open spec fn is_of(
        self,
        playlists: Seq<PlaylistView>,
        found: Seq<Found>,
        files_seen: nat,
    ) -> bool {
        &&& self.membership@.len() == files_seen
        &&& forall|f: int|
            0 <= f < files_seen ==> strictly_ascending(views((#[trigger] self.membership@[f])@))
        &&& forall|f: usize, n: Seq<char>|
            f < files_seen ==> (#[trigger] views(self.membership@[f as int]@).contains(n)
                <==> is_member(playlists, found, f, n))
        &&& forall|n: Seq<char>|
            #[trigger] self.resolved@.contains_key(n) <==> last_hits(playlists, found, n) is Some
        &&& forall|n: Seq<char>|
            #[trigger] self.resolved@.contains_key(n) ==> last_hits(playlists, found, n) == Some(
                self.resolved@[n]@,
            )
        &&& self.matched@.len() == playlists.len()
        &&& forall|i: int|
            0 <= i < playlists.len() ==> #[trigger] self.matched@[i] == hits(found[i]).len()
        &&& missing_views(self.missing@) == missing_of(playlists, found)
        &&& forall|m: Method|
            #[trigger] self.by_method.of(m) == total_by(found, playlists.len(), m)
    }
}

/// Enters one playlist: its name with every file of it that was found, and its tracks in the
/// counts.
fn tally_playlist(
    name: &str,
    tracks: &Vec<Track>,
    found: &Vec<Option<(usize, Method)>>,
    membership: &mut Vec<Vec<String>>,
    counts: &mut Counts,
) -> (r: (Vec<usize>, Vec<String>))
    requires
        found@.len() == tracks@.len(),
        forall|j: int|
            0 <= j < found@.len() ==> (#[trigger] found@[j] matches Some((f, _)) ==> f
                < old(membership)@.len()),
        forall|f: int|
            0 <= f < old(membership)@.len() ==> strictly_ascending(
                views((#[trigger] old(membership)@[f])@),
            ),
        old(counts).isrc + found@.len() <= u128::MAX,
        old(counts).exact + found@.len() <= u128::MAX,
        old(counts).fuzzy + found@.len() <= u128::MAX,
    ensures
        r.0@ == hits(found@),
        views(r.1@) == misses(track_views(tracks@), found@),
        final(membership)@.len() == old(membership)@.len(),
        forall|f: int|
            0 <= f < final(membership)@.len() ==> strictly_ascending(
                views((#[trigger] final(membership)@[f])@),
            ),
        forall|f: usize, n: Seq<char>|
            f < final(membership)@.len() ==> (#[trigger] views(
                final(membership)@[f as int]@,
            ).contains(n) <==> views(old(membership)@[f as int]@).contains(n) || n == name@
                && hits(found@).contains(f)),
        forall|m: Method|
            #[trigger] final(counts).of(m) == old(counts).of(m) + matched_by(found@, m),
{
    let ghost members = membership@;
    let ghost counted = *counts;
    let mut files: Vec<usize> = Vec::new();
    let mut missed: Vec<String> = Vec::new();
    let total = found.len();
    for j in 0..total
        invariant
            total == found@.len(),
            found@.len() == tracks@.len(),
            forall|j: int|
                0 <= j < found@.len() ==> (#[trigger] found@[j] matches Some((f, _)) ==> f
                    < members.len()),
            files@ == hits(found@.take(j as int)),
            views(missed@) == misses(track_views(tracks@), found@.take(j as int)),
            membership@.len() == members.len(),
            forall|f: int|
                0 <= f < members.len() ==> strictly_ascending(views((#[trigger] membership@[f])@)),
            forall|f: usize, n: Seq<char>|
                f < members.len() ==> (#[trigger] views(membership@[f as int]@).contains(n)
                    <==> views(members[f as int]@).contains(n) || n == name@ && files@.contains(
                    f,
                )),
            forall|m: Method|
                #[trigger] counts.of(m) == counted.of(m) + matched_by(found@.take(j as int), m),
            counts.isrc <= counted.isrc + j,
            counts.exact <= counted.exact + j,
            counts.fuzzy <= counted.fuzzy + j,
            counted.isrc + found@.len() <= u128::MAX,
            counted.exact + found@.len() <= u128::MAX,
            counted.fuzzy + found@.len() <= u128::MAX,
    {
        let ghost before = *counts;
        proof {
            assert(found@.take(j + 1).drop_last() =~= found@.take(j as int));
            assert(counts.of(Method::Isrc) == counted.of(Method::Isrc) + matched_by(
                found@.take(j as int),
                Method::Isrc,
            ));
            assert(counts.of(Method::Exact) == counted.of(Method::Exact) + matched_by(
                found@.take(j as int),
                Method::Exact,
            ));
            assert(counts.of(Method::Fuzzy) == counted.of(Method::Fuzzy) + matched_by(
                found@.take(j as int),
                Method::Fuzzy,
            ));
        }
        match found[j] {
            Some((file, how)) => {
                let ghost held = membership@;
                let ghost earlier = files@;
                insert_text(&mut membership[file], name);
                files.push(file);
                proof {
                    assert forall|f: usize, n: Seq<char>| f < members.len() implies (
                    #[trigger] views(membership@[f as int]@).contains(n) <==> views(
                        members[f as int]@,
                    ).contains(n) || n == name@ && files@.contains(f)) by {
                        assert(views(held[f as int]@).contains(n) <==> views(
                            members[f as int]@,
                        ).contains(n) || n == name@ && earlier.contains(f));
                        lemma_push_contains(earlier, file, f);
                        if f == file {
                            lemma_push_contains(views(held[f as int]@), name@, n);
                        } else {
                            assert(membership@[f as int] == held[f as int]);
                        }
                    }
                }
                match how {
                    Method::Isrc => {
                        counts.isrc = counts.isrc + 1;
                    },
                    Method::Exact => {
                        counts.exact = counts.exact + 1;
                    },
                    Method::Fuzzy => {
                        counts.fuzzy = counts.fuzzy + 1;
                    },
                }
            },
            None => {
                let ghost earlier = views(missed@);
                missed.push(show_track(&tracks[j]));
                assert(views(missed@) =~= earlier.push(
                    track_line(track_views(tracks@)[j as int]),
                ));
            },
        }
    }
    assert(found@.take(found@.len() as int) =~= found@);
    (files, missed)
}

/// What was matched, playlist by playlist.
pub open spec fn found_views(found: Seq<Vec<Option<(usize, Method)>>>) -> Seq<Found> {
    found.map_values(|f: Vec<Option<(usize, Method)>>| f@)
}

/// Whether what was matched is about some playlists and some number of files.
pub open spec fn fits(playlists: Seq<PlaylistView>, found: Seq<Found>, files_seen: nat) -> bool {
    &&& found.len() == playlists.len()
    &&& forall|i: int|
        0 <= i < found.len() ==> (#[trigger] found[i]).len() == playlists[i].tracks.len()
    &&& forall|i: int, j: int|
        0 <= i < found.len() && 0 <= j < found[i].len() ==> (#[trigger] found[i][j] matches Some(
            (f, _),
        ) ==> f < files_seen)
}

proof fn lemma_member_next(playlists: Seq<PlaylistView>, found: Seq<Found>, n: int)
    requires
        0 <= n < playlists.len(),
    ensures
        forall|f: usize, name: Seq<char>|
            #[trigger] is_member(playlists.take(n + 1), found, f, name) <==> is_member(
                playlists.take(n),
                found,
                f,
                name,
            ) || name == playlists[n].name && hits(found[n]).contains(f),
{
    let some = playlists.take(n);
    let more = playlists.take(n + 1);
    assert forall|f: usize, name: Seq<char>| #[trigger]
        is_member(more, found, f, name) <==> is_member(some, found, f, name) || name
            == playlists[n].name && hits(found[n]).contains(f) by {
        if is_member(more, found, f, name) {
            let i = choose|i: int|
                0 <= i < more.len() && (#[trigger] more[i]).name == name && hits(
                    found[i],
                ).contains(f);
            if i < n {
                assert(some[i] == more[i]);
            }
        }
        if is_member(some, found, f, name) {
            let i = choose|i: int|
                0 <= i < some.len() && (#[trigger] some[i]).name == name && hits(
                    found[i],
                ).contains(f);
            assert(more[i] == some[i]);
        }
        if name == playlists[n].name && hits(found[n]).contains(f) {
            assert(more[n] == playlists[n]);
        }
    }
}

proof fn lemma_matched_bound(found: Found, method: Method)
    ensures
        matched_by(found, method) <= found.len(),
    decreases found.len(),
{
    if found.len() > 0 {
        lemma_matched_bound(found.drop_last(), method);
    }
}

/// Puts together what came of matching.
pub fn tally(
    playlists: &Vec<Playlist>,
    found: &Vec<Vec<Option<(usize, Method)>>>,
    files_seen: usize,
) -> (r: Outcome)
    requires
        fits(playlist_views(playlists@), found_views(found@), files_seen as nat),
    ensures
        r.is_of(playlist_views(playlists@), found_views(found@), files_seen as nat),
{
    let ghost all = playlist_views(playlists@);
    let ghost given = found_views(found@);
    let mut membership: Vec<Vec<String>> = Vec::new();
    for f in 0..files_seen
        invariant
            membership@.len() == f,
            forall|g: int| 0 <= g < f ==> (#[trigger] membership@[g])@.len() == 0,
    {
        membership.push(Vec::new());
    }
    let mut resolved: StringHashMap<Vec<usize>> = StringHashMap::new();
    let mut matched: Vec<usize> = Vec::new();
    let mut missing: Vec<(String, Vec<String>)> = Vec::new();
    let mut by_method = Counts { isrc: 0, exact: 0, fuzzy: 0 };
    assert(missing_views(missing@) =~= missing_of(all.take(0), given));
    let total = playlists.len();
    for i in 0..total
        invariant
            total == playlists@.len(),
            all == playlist_views(playlists@),
            given == found_views(found@),
            fits(all, given, files_seen as nat),
            membership@.len() == files_seen,
            forall|f: int|
                0 <= f < files_seen ==> strictly_ascending(views((#[trigger] membership@[f])@)),
            forall|f: usize, n: Seq<char>|
                f < files_seen ==> (#[trigger] views(membership@[f as int]@).contains(n)
                    <==> is_member(all.take(i as int), given, f, n)),
            forall|n: Seq<char>|
                #[trigger] resolved@.contains_key(n) <==> last_hits(
                    all.take(i as int),
                    given,
                    n,
                ) is Some,
            forall|n: Seq<char>|
                #[trigger] resolved@.contains_key(n) ==> last_hits(
                    all.take(i as int),
                    given,
                    n,
                ) == Some(resolved@[n]@),
            matched@.len() == i,
            forall|k: int| 0 <= k < i ==> #[trigger] matched@[k] == hits(given[k]).len(),
            missing_views(missing@) == missing_of(all.take(i as int), given),
            forall|m: Method| #[trigger] by_method.of(m) == total_by(given, i as nat, m),
            by_method.isrc <= i * 0xffff_ffff_ffff_ffff,
            by_method.exact <= i * 0xffff_ffff_ffff_ffff,
            by_method.fuzzy <= i * 0xffff_ffff_ffff_ffff,
    {
        let pl = &playlists[i];
        let ghost some = all.take(i as int);
        let ghost more = all.take(i + 1);
        proof {
            assert(more.drop_last() =~= some);
            assert(all[i as int] == pl@);
            assert(more.last() == pl@);
            assert(given[i as int] == found@[i as int]@);
            assert(track_views(pl.tracks@) == pl@.tracks);
            lemma_member_next(all, given, i as int);
            assert forall|j: int| 0 <= j < found@[i as int]@.len() implies (
            #[trigger] found@[i as int]@[j] matches Some((f, _)) ==> f < membership@.len()) by {
                assert(given[i as int][j] == found@[i as int]@[j]);
            }
        }
        let ghost counted = by_method;
        assert(found[i as int].len() <= 0xffff_ffff_ffff_ffff);
        let (files, missed) = tally_playlist(
            pl.name.as_str(),
            &pl.tracks,
            &found[i],
            &mut membership,
            &mut by_method,
        );
        proof {
            lemma_matched_bound(given[i as int], Method::Isrc);
            lemma_matched_bound(given[i as int], Method::Exact);
            lemma_matched_bound(given[i as int], Method::Fuzzy);
            assert(by_method.of(Method::Isrc) == counted.of(Method::Isrc) + matched_by(
                given[i as int],
                Method::Isrc,
            ));
            assert(by_method.of(Method::Exact) == counted.of(Method::Exact) + matched_by(
                given[i as int],
                Method::Exact,
            ));
            assert(by_method.of(Method::Fuzzy) == counted.of(Method::Fuzzy) + matched_by(
                given[i as int],
                Method::Fuzzy,
            ));
        }
        matched.push(files.len());
        resolved.insert(String::from_str(pl.name.as_str()), files);
        if missed.len() > 0 {
            let ghost earlier = missing_views(missing@);
            missing.push((String::from_str(pl.name.as_str()), missed));
            assert(missing_views(missing@) =~= earlier.push(
                (pl@.name, misses(pl@.tracks, given[i as int])),
            ));
        } else {
            assert(views(missed@).len() == 0);
        }
    }
    assert(all.take(all.len() as int) =~= all);
    Outcome { membership, resolved, matched, missing, by_method }
}

/// What the tracks of playlists are matched to.
pub open spec fn matches_of(
    playlists: Seq<PlaylistView>,
    lib: Library,
    settings: Settings,
) -> Seq<Found> {
    playlists.map_values(
        |p: PlaylistView|
            p.tracks.map_values(
                |t: TrackView| match_of(t, key_of(t.artist, t.title), lib, settings),
            ),
    )
}

/// Matches the tracks of a playlist.
fn match_all(tracks: &Vec<Track>, lib: &Library, settings: &Settings) -> (r: Vec<
    Option<(usize, Method)>,
>)
    requires
        lib.wf(),
    ensures
        r@ == track_views(tracks@).map_values(
            |t: TrackView| match_of(t, key_of(t.artist, t.title), *lib, *settings),
        ),
        forall|j: int|
            0 <= j < r@.len() ==> (#[trigger] r@[j] matches Some((f, _)) ==> f < lib.files_seen),
{
    let mut r: Vec<Option<(usize, Method)>> = Vec::new();
    for j in 0..tracks.len()
        invariant
            lib.wf(),
            r@.len() == j,
            forall|k: int|
                0 <= k < j ==> #[trigger] r@[k] == match_of(
                    tracks@[k]@,
                    key_of(tracks@[k]@.artist, tracks@[k]@.title),
                    *lib,
                    *settings,
                ),
            forall|k: int|
                0 <= k < j ==> (#[trigger] r@[k] matches Some((f, _)) ==> f < lib.files_seen),
    {
        r.push(match_track(&tracks[j], lib, settings));
    }
    r
}

/// Matches every track of the playlists against the library.
pub fn resolve(playlists: &Vec<Playlist>, lib: &Library, settings: &Settings) -> (r: Outcome)
    requires
        lib.wf(),
    ensures
        r.is_of(
            playlist_views(playlists@),
            matches_of(playlist_views(playlists@), *lib, *settings),
            lib.files_seen as nat,
        ),
{
    let ghost all = playlist_views(playlists@);
    let mut found: Vec<Vec<Option<(usize, Method)>>> = Vec::new();
    for i in 0..playlists.len()
        invariant
            lib.wf(),
            found@.len() == i,
            forall|k: int|
                0 <= k < i ==> (#[trigger] found@[k])@ == track_views(
                    playlists@[k].tracks@,
                ).map_values(
                    |t: TrackView| match_of(t, key_of(t.artist, t.title), *lib, *settings),
                ),
            forall|k: int, j: int|
                0 <= k < i && 0 <= j < found@[k]@.len() ==> (#[trigger] found@[k]@[j] matches Some(
                    (f, _),
                ) ==> f < lib.files_seen),
    {
        found.push(match_all(&playlists[i].tracks, lib, settings));
    }
    assert(found_views(found@) =~= matches_of(all, *lib, *settings));
    tally(playlists, &found, lib.files_seen)
}

/// The files of a playlist by its name; none where no playlist has that name.
pub open spec fn resolved_files(resolved: Map<Seq<char>, Vec<usize>>, name: Seq<char>) -> Seq<
    usize,
> {
    if resolved.contains_key(name) {
        resolved[name]@
    } else {
        Seq::empty()
    }
}

/// The playlists in their order, each with the files that its name stands for.
pub fn ordered(playlists: &Vec<Playlist>, resolved: &StringHashMap<Vec<usize>>) -> (r: Vec<
    (String, Vec<usize>),
>)
    ensures
        r@.len() == playlists@.len(),
        forall|i: int|
            0 <= i < r@.len() ==> {
                &&& (#[trigger] r@[i]).0@ == playlists@[i].name@
                &&& r@[i].1@ == resolved_files(resolved@, playlists@[i].name@)
            },
{
    let mut r: Vec<(String, Vec<usize>)> = Vec::new();
    for i in 0..playlists.len()
        invariant
            r@.len() == i,
            forall|k: int|
                0 <= k < i ==> {
                    &&& (#[trigger] r@[k]).0@ == playlists@[k].name@
                    &&& r@[k].1@ == resolved_files(resolved@, playlists@[k].name@)
                },
    {
        let name = playlists[i].name.as_str();
        let files: Vec<usize> = match resolved.get(name) {
            Some(files) => {
                let copy = files.clone();
                assert(copy@ =~= files@);
                copy
            },
            None => Vec::new(),
        };
        assert(files@ =~= resolved_files(resolved@, name@));
        r.push((String::from_str(name), files));
    }
    r
}

/// The files that belong to at least so many playlists, in order.
pub open spec fn files_in(membership: Seq<Vec<String>>, least: nat) -> Seq<int>
    decreases membership.len(),
{
    if membership.len() == 0 {
        Seq::empty()
    } else {
        let before = files_in(membership.drop_last(), least);
        if membership.last()@.len() >= least {
            before.push(membership.len() - 1)
        } else {
            before
        }
    }
}

/// Lists the files that belong to at least so many playlists.
pub fn members(membership: &Vec<Vec<String>>, least: usize) -> (r: Vec<usize>)
    ensures
        r@.map_values(|f: usize| f as int) == files_in(membership@, least as nat),
{
    let mut r: Vec<usize> = Vec::new();
    assert(r@.map_values(|f: usize| f as int) =~= files_in(membership@.take(0), least as nat));
    for f in 0..membership.len()
        invariant
            r@.map_values(|f: usize| f as int) == files_in(
                membership@.take(f as int),
                least as nat,
            ),
    {
        assert(membership@.take(f + 1).drop_last() =~= membership@.take(f as int));
        if membership[f].len() >= least {
            let ghost before = r@.map_values(|f: usize| f as int);
            r.push(f);
            assert(r@.map_values(|f: usize| f as int) =~= before.push(f as int));
        }
    }
    assert(membership@.take(membership@.len() as int) =~= membership@);
    r
}

/// Every track of a playlist is found or missed, and every track that is found was matched by one
/// of the methods.
pub proof fn law_every_track_is_accounted_for(tracks: Seq<TrackView>, found: Found)
    ensures
        hits(found).len() + misses(tracks, found).len() == found.len(),
        matched_by(found, Method::Isrc) + matched_by(found, Method::Exact) + matched_by(
            found,
            Method::Fuzzy,
        ) == hits(found).len(),
    decreases found.len(),
{
    if found.len() > 0 {
        law_every_track_is_accounted_for(tracks, found.drop_last());
    }
}

/// The files of a playlist keep the order of its tracks.
pub proof fn law_files_keep_track_order(found: Found)
    ensures
        hits(found) == found.filter(|m: Option<(usize, Method)>| m is Some).map_values(
            |m: Option<(usize, Method)>| (m->0).0,
        ),
    decreases found.len(),
{
    reveal(Seq::filter);
    let files = found.filter(|m: Option<(usize, Method)>| m is Some).map_values(
        |m: Option<(usize, Method)>| (m->0).0,
    );
    if found.len() > 0 {
        law_files_keep_track_order(found.drop_last());
    }
    assert(hits(found) =~= files);
}

/// A file that several playlists have is listed once, with every playlist that has it, each named
/// once, and with no other.
pub proof fn law_file_names_all_its_playlists(
    out: Outcome,
    playlists: Seq<PlaylistView>,
    found: Seq<Found>,
    files_seen: nat,
    i: int,
    j: int,
)
    requires
        fits(playlists, found, files_seen),
        out.is_of(playlists, found, files_seen),
        0 <= i < playlists.len(),
        0 <= j < found[i].len(),
        found[i][j] is Some,
    ensures
        (found[i][j]->0).0 < out.membership@.len(),
        views(out.membership@[(found[i][j]->0).0 as int]@).contains(playlists[i].name),
        views(out.membership@[(found[i][j]->0).0 as int]@).no_duplicates(),
        forall|name: Seq<char>|
            #[trigger] views(out.membership@[(found[i][j]->0).0 as int]@).contains(name)
                ==> exists|k: int|
                0 <= k < playlists.len() && (#[trigger] playlists[k]).name == name && hits(
                    found[k],
                ).contains((found[i][j]->0).0),
{
    let file = (found[i][j]->0).0;
    lemma_hit(found[i], j);
    assert(playlists[i].name == playlists[i].name);
    assert(is_member(playlists, found, file, playlists[i].name));
    assert(views(out.membership@[file as int]@).contains(playlists[i].name));
    lemma_ascending_is_distinct(views(out.membership@[file as int]@));
}

proof fn lemma_hit(found: Found, j: int)
    requires
        0 <= j < found.len(),
        found[j] is Some,
    ensures
        hits(found).contains((found[j]->0).0),
    decreases found.len(),
{
    let before = found.drop_last();
    if j < before.len() {
        lemma_hit(before, j);
        if let Some((file, _)) = found.last() {
            lemma_push_contains(hits(before), file, (found[j]->0).0);
        }
    } else {
        lemma_push_contains(hits(before), (found[j]->0).0, (found[j]->0).0);
    }
}

/// A playlist gets the files of its own tracks, unless a later one has the same name.
pub proof fn law_playlist_gets_its_own_files(
    out: Outcome,
    playlists: Seq<PlaylistView>,
    found: Seq<Found>,
    files_seen: nat,
    i: int,
)
    requires
        out.is_of(playlists, found, files_seen),
        0 <= i < playlists.len(),
        forall|k: int| i < k < playlists.len() ==> (#[trigger] playlists[k]).name != playlists[i].name,
    ensures
        resolved_files(out.resolved@, playlists[i].name) == hits(found[i]),
{
    lemma_last_hits(playlists, found, i);
    assert(out.resolved@.contains_key(playlists[i].name));
}

proof fn lemma_last_hits(playlists: Seq<PlaylistView>, found: Seq<Found>, i: int)
    requires
        0 <= i < playlists.len(),
        forall|k: int| i < k < playlists.len() ==> (#[trigger] playlists[k]).name != playlists[i].name,
    ensures
        last_hits(playlists, found, playlists[i].name) == Some(hits(found[i])),
    decreases playlists.len(),
{
    if i < playlists.len() - 1 {
        let before = playlists.drop_last();
        assert(before[i] == playlists[i]);
        assert forall|k: int| i < k < before.len() implies (#[trigger] before[k]).name
            != before[i].name by {
            assert(before[k] == playlists[k]);
        }
        assert(playlists.last() == playlists[playlists.len() - 1]);
        lemma_last_hits(before, found, i);
    }
}

/// Tags and playlist files agree: a file that is in a playlist is tagged with its name, and a file
/// that is tagged with a name is in the playlist of that name, if only one has it.
pub proof fn law_tags_and_playlists_agree(
    out: Outcome,
    playlists: Seq<PlaylistView>,
    found: Seq<Found>,
    files_seen: nat,
    file: usize,
    name: Seq<char>,
)
    requires
        out.is_of(playlists, found, files_seen),
        file < files_seen,
    ensures
        resolved_files(out.resolved@, name).contains(file) ==> views(
            out.membership@[file as int]@,
        ).contains(name),
        (views(out.membership@[file as int]@).contains(name) && forall|i: int, j: int|
            0 <= i < j < playlists.len() ==> (#[trigger] playlists[i]).name != name || (
            #[trigger] playlists[j]).name != name) ==> resolved_files(
            out.resolved@,
            name,
        ).contains(file),
{
    if resolved_files(out.resolved@, name).contains(file) {
        lemma_last_hits_of(playlists, found, name);
        let i = choose|i: int|
            0 <= i < playlists.len() && (#[trigger] playlists[i]).name == name && last_hits(
                playlists,
                found,
                name,
            ) == Some(hits(found[i]));
        assert(playlists[i].name == name && hits(found[i]).contains(file));
    }
    if views(out.membership@[file as int]@).contains(name) && forall|i: int, j: int|
        0 <= i < j < playlists.len() ==> (#[trigger] playlists[i]).name != name || (
        #[trigger] playlists[j]).name != name {
        let i = choose|i: int|
            0 <= i < playlists.len() && (#[trigger] playlists[i]).name == name && hits(
                found[i],
            ).contains(file);
        law_playlist_gets_its_own_files(out, playlists, found, files_seen, i);
    }
}

proof fn lemma_last_hits_of(playlists: Seq<PlaylistView>, found: Seq<Found>, name: Seq<char>)
    ensures
        last_hits(playlists, found, name) is Some ==> exists|i: int|
            0 <= i < playlists.len() && (#[trigger] playlists[i]).name == name && last_hits(
                playlists,
                found,
                name,
            ) == Some(hits(found[i])),
    decreases playlists.len(),
{
    if playlists.len() > 0 {
        let last = playlists.len() - 1;
        if playlists.last().name == name {
            assert(playlists[last].name == name);
        } else if last_hits(playlists, found, name) is Some {
            let before = playlists.drop_last();
            lemma_last_hits_of(before, found, name);
            let i = choose|i: int|
                0 <= i < before.len() && (#[trigger] before[i]).name == name && last_hits(
                    before,
                    found,
                    name,
                ) == Some(hits(found[i]));
            assert(playlists[i] == before[i]);
        }
    }
}

/// Each track of a playlist adds to what was found or to what was missed, and to nothing else: a
/// track that was found adds its file and counts for its own method, and one that was not adds a
/// line with its own artist and title.
pub proof fn law_each_track_counts_once(
    tracks: Seq<TrackView>,
    found: Found,
    file: usize,
    method: Method,
    other: Method,
)
    ensures
        hits(found.push(Some((file, method)))) == hits(found).push(file),
        hits(found.push(None)) == hits(found),
        misses(tracks, found.push(Some((file, method)))) == misses(tracks, found),
        misses(tracks, found.push(None)) == misses(tracks, found).push(
            track_line(tracks[found.len() as int]),
        ),
        matched_by(found.push(Some((file, method))), other) == matched_by(found, other) + if other
            == method {
            1int
        } else {
            0
        },
        matched_by(found.push(None), other) == matched_by(found, other),
        hits(Seq::empty()).len() == 0,
        misses(tracks, Seq::empty()).len() == 0,
        matched_by(Seq::empty(), other) == 0,
{
    assert(found.push(Some((file, method))).drop_last() =~= found);
    assert(found.push(None).drop_last() =~= found);
}

/// A line of the report is the artist and the title, with a question mark for what is not known.
pub proof fn law_lines_show_artist_and_title(track: TrackView)
    ensures
        track.artist.len() > 0 && track.title.len() > 0 ==> track_line(track) == track.artist
            + seq![' ', '-', ' '] + track.title,
        track.artist.len() == 0 && track.title.len() > 0 ==> track_line(track) == seq![
            '?',
            ' ',
            '-',
            ' ',
        ] + track.title,
        track.artist.len() > 0 && track.title.len() == 0 ==> track_line(track) == track.artist
            + seq![' ', '-', ' ', '?'],
{
    reveal_strlit(" - ");
    assert(" - "@ =~= seq![' ', '-', ' ']);
    if track.artist.len() == 0 {
        assert(track_line(track) =~= seq!['?', ' ', '-', ' '] + or_question(track.title));
    }
    if track.title.len() == 0 {
        assert(track_line(track) =~= or_question(track.artist) + seq![' ', '-', ' ', '?']);
    }
}

/// Every track of every playlist is matched by its own artist, title, ISRC and length.
pub proof fn law_every_track_is_matched_by_its_own_names(
    playlists: Seq<PlaylistView>,
    lib: Library,
    settings: Settings,
)
    ensures
        matches_of(playlists, lib, settings).len() == playlists.len(),
        forall|i: int, j: int|
            0 <= i < playlists.len() && 0 <= j < playlists[i].tracks.len() ==> {
                let track = playlists[i].tracks[j];
                #[trigger] matches_of(playlists, lib, settings)[i][j] == match_of(
                    track,
                    key_of(track.artist, track.title),
                    lib,
                    settings,
                )
            },
        forall|i: int|
            0 <= i < playlists.len() ==> (#[trigger] matches_of(playlists, lib, settings)[i]).len()
                == playlists[i].tracks.len(),
{
}

/// A playlist is reported as missing tracks if and only if it misses some, with all that it
/// misses, in the order of the playlists.
pub proof fn law_missing_playlists_are_reported(
    playlists: Seq<PlaylistView>,
    found: Seq<Found>,
    more: PlaylistView,
    matched: Found,
)
    requires
        found.len() == playlists.len(),
    ensures
        missing_of(playlists.push(more), found.push(matched)) == if misses(
            more.tracks,
            matched,
        ).len() > 0 {
            missing_of(playlists, found).push((more.name, misses(more.tracks, matched)))
        } else {
            missing_of(playlists, found)
        },
        missing_of(Seq::empty(), found).len() == 0,
{
    assert(playlists.push(more).drop_last() =~= playlists);
    lemma_missing_prefix(playlists, found, found.push(matched));
}

proof fn lemma_missing_prefix(
    playlists: Seq<PlaylistView>,
    found: Seq<Found>,
    longer: Seq<Found>,
)
    requires
        found.len() >= playlists.len(),
        longer.len() >= playlists.len(),
        forall|i: int| 0 <= i < playlists.len() ==> #[trigger] found[i] == longer[i],
    ensures
        missing_of(playlists, found) == missing_of(playlists, longer),
    decreases playlists.len(),
{
    if playlists.len() > 0 {
        lemma_missing_prefix(playlists.drop_last(), found, longer);
        assert(found[playlists.len() - 1] == longer[playlists.len() - 1]);
    }
}

/// The files that belong to at least so many playlists are just those, each once and in order.
pub proof fn law_members_are_the_files_in_playlists(membership: Seq<Vec<String>>, least: nat)
    ensures
        forall|f: int|
            #[trigger] files_in(membership, least).contains(f) <==> 0 <= f < membership.len()
                && membership[f]@.len() >= least,
        forall|a: int, b: int|
            0 <= a < b < files_in(membership, least).len() ==> #[trigger] files_in(
                membership,
                least,
            )[a] < #[trigger] files_in(membership, least)[b],
    decreases membership.len(),
{
    if membership.len() > 0 {
        let front = membership.drop_last();
        let last = membership.len() - 1;
        let before = files_in(front, least);
        let all = files_in(membership, least);
        law_members_are_the_files_in_playlists(front, least);
        assert forall|f: int|
            #[trigger] all.contains(f) <==> 0 <= f < membership.len() && membership[f]@.len()
                >= least by {
            assert(before.contains(f) <==> 0 <= f < front.len() && front[f]@.len() >= least);
            if 0 <= f < front.len() {
                assert(front[f] == membership[f]);
            }
            if membership[last]@.len() >= least {
                lemma_push_contains(before, last, f);
            }
        }
        assert forall|a: int, b: int| 0 <= a < b < all.len() implies #[trigger] all[a]
            < #[trigger] all[b] by {
            assert(all[a] == before[a]);
            assert(before.contains(before[a]));
            if b < before.len() {
                assert(all[b] == before[b]);
            }
        }
    }
}

/// The outcome has what was found: how many tracks of each playlist, what each method matched in
/// all playlists together, and what is missing of them.
pub proof fn law_outcome_has_what_was_found(
    out: Outcome,
    playlists: Seq<PlaylistView>,
    found: Seq<Found>,
    files_seen: nat,
    method: Method,
)
    requires
        fits(playlists, found, files_seen),
        out.is_of(playlists, found, files_seen),
    ensures
        out.membership@.len() == files_seen,
        out.matched@.len() == playlists.len(),
        forall|i: int|
            0 <= i < playlists.len() ==> #[trigger] out.matched@[i] == hits(found[i]).len(),
        missing_views(out.missing@) == missing_of(playlists, found),
        out.by_method.of(method) == total_by(found, playlists.len(), method),
        total_by(found, playlists.len(), method) == match method {
            Method::Isrc => out.by_method.isrc as nat,
            Method::Exact => out.by_method.exact as nat,
            Method::Fuzzy => out.by_method.fuzzy as nat,
        },
{
    assert(out.by_method.of(method) == total_by(found, playlists.len(), method));
}

/// What a method matched in all playlists is what it matched in each, added up.
pub proof fn law_methods_add_up(found: Seq<Found>, n: nat, method: Method)
    ensures
        total_by(found, n + 1, method) == total_by(found, n, method) + matched_by(
            found[n as int],
            method,
        ),
        total_by(found, 0, method) == 0,
{
}

} // verus!
