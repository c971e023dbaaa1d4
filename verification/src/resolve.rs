//! Resolving a playlist entry to a file on disk.
//!
//! Three tiers, best first:
//!   1. ISRC, an exact recording identifier, immune to spelling
//!   2. exact normalised `artist|title`
//!   3. fuzzy `artist|title`, but only when the artist half also agrees
//!
//! The last tier without the artist guard would match every cover and every same-named song in the
//! library, which is worse than not matching at all.

use vstd::prelude::*;

use crate::library::{
    all_filed, law_every_file_is_indexed, law_index_has_only_files, Entry, Library,
};
use crate::matching::{
    artist_half, artist_of, best_match, is_best, key, key_of, law_best_is_unique, lemma_less_chain,
    lemma_reaches_more, lemma_share_wf, none_reaches, normal, sorted_words, token_sort_ratio,
    word_similarity, Share,
};
use crate::model::{Track, TrackView};
use crate::spelling::law_keys_tell_names_apart;
use crate::tags::FileTags;
use crate::text::views;

verus! {

/// How near a match has to be.
#[derive(Clone, Copy, Debug)]
pub struct Settings {
    /// Fuzzy match cutoff, in billionths of a percent.
    pub threshold: u64,
    /// Drift allowed when two files share an `artist|title`, in nanoseconds; none where no drift
    /// is small enough.
    pub tolerance_ns: Option<u128>,
}

/// How much of the artist half has to agree in a fuzzy match, in billionths of a percent.
pub const ARTIST_CUTOFF: u64 = 80_000_000_000;

/// What a track was matched by.
#[derive(Clone, Copy, PartialEq, Eq, Structural, Debug)]
pub enum Method {
    Isrc,
    Exact,
    Fuzzy,
}

/// The difference of two durations.
pub open spec fn drift(a: nat, b: nat) -> nat {
    if a >= b {
        (a - b) as nat
    } else {
        (b - a) as nat
    }
}

impl Settings {
    /// Whether a file reports a duration that is near enough.
    pub open spec fn near(self, entry: Entry, want_ns: nat) -> bool {
        &&& entry.duration_ns > 0
        &&& self.tolerance_ns matches Some(most)
        &&& drift(entry.duration_ns as nat, want_ns) <= most
    }
}

/// A duration in milliseconds, in nanoseconds.
pub open spec fn millis_to_nanos(ms: nat) -> nat {
    ms * 1_000_000
}

/// The file that is picked among those with one key: the nearest in duration of those that are
/// near enough, the first of them where several are as near. Where none is, or where the duration
/// of the track is not known, it is the first file.
pub open spec fn is_pick(entries: Seq<Entry>, want_ms: nat, settings: Settings, i: int) -> bool {
    let want = millis_to_nanos(want_ms);
    if want_ms > 0 && exists|j: int|
        0 <= j < entries.len() && settings.near(#[trigger] entries[j], want) {
        &&& 0 <= i < entries.len()
        &&& settings.near(entries[i], want)
        &&& forall|j: int|
            0 <= j < entries.len() && settings.near(#[trigger] entries[j], want) ==> drift(
                entries[i].duration_ns as nat,
                want,
            ) <= drift(entries[j].duration_ns as nat, want)
        &&& forall|j: int|
            0 <= j < i && settings.near(#[trigger] entries[j], want) ==> drift(
                entries[i].duration_ns as nat,
                want,
            ) < drift(entries[j].duration_ns as nat, want)
    } else {
        i == 0
    }
}

/// There is at most one file to pick.
pub proof fn law_pick_is_unique(
    entries: Seq<Entry>,
    want_ms: nat,
    settings: Settings,
    i: int,
    j: int,
)
    requires
        is_pick(entries, want_ms, settings, i),
        is_pick(entries, want_ms, settings, j),
    ensures
        i == j,
{
    if i < j {
        assert(entries[i] == entries[i]);
    } else if j < i {
        assert(entries[j] == entries[j]);
    }
}

/// The place of the file that is picked.
pub open spec fn pick_of(entries: Seq<Entry>, want_ms: nat, settings: Settings) -> int {
    choose|i: int| is_pick(entries, want_ms, settings, i)
}

fn gap(a: u128, b: u128) -> (r: u128)
    ensures
        r == drift(a as nat, b as nat),
{
    if a >= b {
        a - b
    } else {
        b - a
    }
}

/// Picks among the files with one key.
pub fn pick(entries: &Vec<Entry>, want_ms: u64, settings: &Settings) -> (r: usize)
    requires
        entries@.len() > 0,
    ensures
        is_pick(entries@, want_ms as nat, *settings, pick_of(entries@, want_ms as nat, *settings)),
        0 <= pick_of(entries@, want_ms as nat, *settings) < entries@.len(),
        r == entries@[pick_of(entries@, want_ms as nat, *settings)].file,
{
    let ghost want_ns = millis_to_nanos(want_ms as nat);
    let want = want_ms as u128 * 1_000_000;
    let mut nearest: Option<usize> = None;
    if want_ms > 0 {
        if let Some(most) = settings.tolerance_ns {
            for k in 0..entries.len()
                invariant
                    want == want_ns,
                    settings.tolerance_ns == Some(most),
                    match nearest {
                        Some(i) => {
                            &&& i < k
                            &&& settings.near(entries@[i as int], want_ns)
                            &&& forall|j: int|
                                0 <= j < k && settings.near(#[trigger] entries@[j], want_ns)
                                    ==> drift(entries@[i as int].duration_ns as nat, want_ns)
                                    <= drift(entries@[j].duration_ns as nat, want_ns)
                            &&& forall|j: int|
                                0 <= j < i && settings.near(#[trigger] entries@[j], want_ns)
                                    ==> drift(entries@[i as int].duration_ns as nat, want_ns)
                                    < drift(entries@[j].duration_ns as nat, want_ns)
                        },
                        None => forall|j: int|
                            0 <= j < k ==> !settings.near(#[trigger] entries@[j], want_ns),
                    },
            {
                let length = entries[k].duration_ns;
                let off = gap(length, want);
                if length > 0 && off <= most {
                    let better = match nearest {
                        Some(i) => off < gap(entries[i].duration_ns, want),
                        None => true,
                    };
                    if better {
                        nearest = Some(k);
                    }
                }
            }
        }
    }
    let found: usize = match nearest {
        Some(i) => i,
        None => 0,
    };
    proof {
        assert(is_pick(entries@, want_ms as nat, *settings, found as int));
        law_pick_is_unique(
            entries@,
            want_ms as nat,
            *settings,
            found as int,
            pick_of(entries@, want_ms as nat, *settings),
        );
    }
    entries[found].file
}

/// The place of the best candidate.
pub open spec fn best_of(query: Seq<char>, candidates: Seq<Seq<char>>, cutoff: int) -> int {
    choose|i: int| is_best(query, candidates, cutoff, i)
}

/// The file that a track with some key stands for, and what it was matched by:
///   1. the file with its ISRC, if it has one;
///   2. else, of the files with its key, the one that is picked;
///   3. else, of those with the most similar key, the one that is picked, but only where that key
///      reaches the threshold and its artist half agrees.
pub open spec fn match_of(
    track: TrackView,
    key: Seq<char>,
    lib: Library,
    settings: Settings,
) -> Option<(usize, Method)> {
    let keys = views(lib.keys@);
    if track.isrc.len() > 0 && lib.by_isrc@.contains_key(track.isrc) {
        Some((lib.by_isrc@[track.isrc], Method::Isrc))
    } else if lib.by_key@.contains_key(key) {
        let entries = lib.by_key@[key]@;
        Some((entries[pick_of(entries, track.duration_ms, settings)].file, Method::Exact))
    } else if none_reaches(key, keys, settings.threshold as int) {
        None
    } else {
        let found = keys[best_of(key, keys, settings.threshold as int)];
        if word_similarity(artist_half(key), artist_half(found)).reaches(ARTIST_CUTOFF as int) {
            let entries = lib.by_key@[found]@;
            Some((entries[pick_of(entries, track.duration_ms, settings)].file, Method::Fuzzy))
        } else {
            None
        }
    }
}

/// Finds the file that a track with some key stands for.
pub fn match_key(track: &Track, key: &str, lib: &Library, settings: &Settings) -> (r: Option<
    (usize, Method),
>)
    requires
        lib.wf(),
    ensures
        r == match_of(track@, key@, *lib, *settings),
        r matches Some((file, _)) ==> file < lib.files_seen,
{
    if !track.isrc.as_str().is_empty() {
        if let Some(file) = lib.by_isrc.get(track.isrc.as_str()) {
            return Some((*file, Method::Isrc));
        }
    }
    if let Some(entries) = lib.by_key.get(key) {
        return Some((pick(entries, track.duration_ms, settings), Method::Exact));
    }
    let ghost keys = views(lib.keys@);
    let ghost cutoff = settings.threshold as int;
    match best_match(key, &lib.keys, settings.threshold) {
        Some((found, _)) => {
            proof {
                let i = choose|i: int|
                    {
                        &&& #[trigger] is_best(key@, keys, cutoff, i)
                        &&& found == lib.keys@[i]
                    };
                law_best_is_unique(key@, keys, cutoff, i, best_of(key@, keys, cutoff));
                assert(word_similarity(key@, keys[i]).reaches(cutoff));
                assert(keys.contains(found@));
            }
            let agreement = token_sort_ratio(artist_of(key), artist_of(found.as_str()));
            if !agreement.reaches(ARTIST_CUTOFF) {
                return None;
            }
            match lib.by_key.get(found.as_str()) {
                Some(entries) => Some((pick(entries, track.duration_ms, settings), Method::Fuzzy)),
                None => None,
            }
        },
        None => None,
    }
}

/// Finds the file that a track stands for.
pub fn match_track(track: &Track, lib: &Library, settings: &Settings) -> (r: Option<
    (usize, Method),
>)
    requires
        lib.wf(),
    ensures
        r == match_of(track@, key_of(track@.artist, track@.title), *lib, *settings),
        r matches Some((file, _)) ==> file < lib.files_seen,
{
    let name = key(track.artist.as_str(), track.title.as_str());
    match_key(track, name.as_str(), lib, settings)
}

/// An ISRC is immune to spelling: a track whose ISRC is in the library stands for that file,
/// whatever its artist and title are.
pub proof fn law_isrc_is_immune_to_spelling(
    track: TrackView,
    other: TrackView,
    lib: Library,
    settings: Settings,
)
    requires
        track.isrc == other.isrc,
        track.isrc.len() > 0,
        lib.by_isrc@.contains_key(track.isrc),
    ensures
        match_of(track, key_of(track.artist, track.title), lib, settings) == Some(
            (lib.by_isrc@[track.isrc], Method::Isrc),
        ),
        match_of(other, key_of(other.artist, other.title), lib, settings) == match_of(
            track,
            key_of(track.artist, track.title),
            lib,
            settings,
        ),
{
}

/// A fuzzy match needs both: a key in the library that reaches the threshold, and an artist half
/// of it that agrees.
pub proof fn law_fuzzy_match_needs_the_artist(
    track: TrackView,
    key: Seq<char>,
    lib: Library,
    settings: Settings,
)
    requires
        lib.wf(),
        match_of(track, key, lib, settings) matches Some((_, Method::Fuzzy)),
    ensures
        exists|i: int|
            {
                &&& #[trigger] is_best(key, views(lib.keys@), settings.threshold as int, i)
                &&& word_similarity(artist_half(key), artist_half(lib.keys@[i]@)).reaches(
                    ARTIST_CUTOFF as int,
                )
            },
{
    let keys = views(lib.keys@);
    let cutoff = settings.threshold as int;
    lemma_best_exists(key, keys, cutoff);
    assert(is_best(key, keys, cutoff, best_of(key, keys, cutoff)));
}

/// Where a candidate reaches the cutoff there is a best one.
proof fn lemma_best_exists(query: Seq<char>, candidates: Seq<Seq<char>>, cutoff: int)
    requires
        !none_reaches(query, candidates, cutoff),
    ensures
        exists|i: int| is_best(query, candidates, cutoff, i),
    decreases candidates.len(),
{
    let last = candidates.len() - 1;
    let front = candidates.drop_last();
    let i = if none_reaches(query, front, cutoff) {
        last
    } else {
        lemma_best_exists(query, front, cutoff);
        let best = best_of(query, front, cutoff);
        if word_similarity(query, front[best]).less(word_similarity(query, candidates[last])) {
            lemma_still_reaches(query, front[best], candidates[last], cutoff);
            last
        } else {
            best
        }
    };
    assert(word_similarity(query, candidates[i]).reaches(cutoff)) by {
        let k = choose|k: int|
            0 <= k < candidates.len() && word_similarity(query, #[trigger] candidates[k]).reaches(
                cutoff,
            );
        if k < last {
            assert(front[k] == candidates[k]);
        }
        if i < last {
            assert(front[i] == candidates[i]);
        }
    }
    assert forall|j: int| 0 <= j < i implies word_similarity(query, #[trigger] candidates[j]).less(
        word_similarity(query, candidates[i]),
    ) by {
        assert(front[j] == candidates[j]);
        if none_reaches(query, front, cutoff) {
            lemma_below_is_less(query, candidates[j], candidates[i], cutoff);
        } else if i == last {
            let best = best_of(query, front, cutoff);
            lemma_less_than_best(query, candidates[j], front[best], candidates[last]);
        }
    }
    assert forall|j: int| 0 <= j < candidates.len() implies !word_similarity(
        query,
        candidates[i],
    ).less(word_similarity(query, #[trigger] candidates[j])) by {
        if j < i {
            assert(word_similarity(query, candidates[j]).less(word_similarity(query, candidates[i])));
        } else if j < last {
            assert(front[j] == candidates[j]);
        }
    }
    assert(is_best(query, candidates, cutoff, i));
}

proof fn lemma_below_is_less(query: Seq<char>, a: Seq<char>, b: Seq<char>, cutoff: int)
    requires
        !word_similarity(query, a).reaches(cutoff),
        word_similarity(query, b).reaches(cutoff),
    ensures
        word_similarity(query, a).less(word_similarity(query, b)),
{
    lemma_share_wf(sorted_words(query), sorted_words(a));
    lemma_share_wf(sorted_words(query), sorted_words(b));
    lemma_reaches_more(word_similarity(query, a), word_similarity(query, b), cutoff);
}

proof fn lemma_less_than_best(query: Seq<char>, a: Seq<char>, b: Seq<char>, c: Seq<char>)
    requires
        !word_similarity(query, b).less(word_similarity(query, a)),
        word_similarity(query, b).less(word_similarity(query, c)),
    ensures
        word_similarity(query, a).less(word_similarity(query, c)),
{
    lemma_share_wf(sorted_words(query), sorted_words(a));
    lemma_share_wf(sorted_words(query), sorted_words(b));
    lemma_share_wf(sorted_words(query), sorted_words(c));
    lemma_less_chain(
        word_similarity(query, a),
        word_similarity(query, b),
        word_similarity(query, c),
    );
}

proof fn lemma_still_reaches(query: Seq<char>, a: Seq<char>, b: Seq<char>, cutoff: int)
    requires
        word_similarity(query, a).reaches(cutoff),
        word_similarity(query, a).less(word_similarity(query, b)),
    ensures
        word_similarity(query, b).reaches(cutoff),
{
    if !word_similarity(query, b).reaches(cutoff) {
        lemma_below_is_less(query, b, a, cutoff);
    }
}

/// By how much two numbers differ.
pub open spec fn apart(a: int, b: int) -> int {
    if a <= b {
        b - a
    } else {
        a - b
    }
}

/// Whether a file plays about as long as a track: both lengths are known, and they differ by no
/// more than the tolerance.
pub open spec fn plays_as_long(entry: Entry, want_ms: nat, settings: Settings) -> bool {
    &&& want_ms > 0
    &&& entry.duration_ns > 0
    &&& settings.tolerance_ns is Some
    &&& apart(entry.duration_ns as int, want_ms as int * 1_000_000) <= settings.tolerance_ns->Some_0
}

/// The pick among files with one key is one of them. Where some of them play about as long as the
/// track it is one of these, no other one is nearer, and none before it is as near; where none
/// does it is the first file.
pub proof fn law_pick_is_the_nearest(entries: Seq<Entry>, want_ms: nat, settings: Settings)
    requires
        entries.len() > 0,
    ensures
        0 <= pick_of(entries, want_ms, settings) < entries.len(),
        forall|j: int|
            0 <= j < entries.len() && plays_as_long(#[trigger] entries[j], want_ms, settings) ==> {
                let picked = entries[pick_of(entries, want_ms, settings)];
                let want = want_ms as int * 1_000_000;
                &&& plays_as_long(picked, want_ms, settings)
                &&& apart(picked.duration_ns as int, want) <= apart(
                    entries[j].duration_ns as int,
                    want,
                )
                &&& j < pick_of(entries, want_ms, settings) ==> apart(
                    picked.duration_ns as int,
                    want,
                ) < apart(entries[j].duration_ns as int, want)
            },
        (forall|j: int|
            0 <= j < entries.len() ==> !plays_as_long(#[trigger] entries[j], want_ms, settings))
            ==> pick_of(entries, want_ms, settings) == 0,
{
    let want = millis_to_nanos(want_ms);
    assert forall|j: int| 0 <= j < entries.len() implies (plays_as_long(
        #[trigger] entries[j],
        want_ms,
        settings,
    ) <==> want_ms > 0 && settings.near(entries[j], want)) by {}
    let i = lemma_pick_exists(entries, want_ms, settings, entries.len() as int);
    law_pick_is_unique(entries, want_ms, settings, i, pick_of(entries, want_ms, settings));
}

/// There is a file to pick.
proof fn lemma_pick_exists(
    entries: Seq<Entry>,
    want_ms: nat,
    settings: Settings,
    n: int,
) -> (i: int)
    requires
        entries.len() > 0,
        n == entries.len(),
    ensures
        is_pick(entries, want_ms, settings, i),
        0 <= i < entries.len(),
{
    let want = millis_to_nanos(want_ms);
    if want_ms > 0 && exists|j: int|
        0 <= j < entries.len() && settings.near(#[trigger] entries[j], want) {
        lemma_nearest_exists(entries, want, settings, n)
    } else {
        0
    }
}

proof fn lemma_nearest_exists(
    entries: Seq<Entry>,
    want: nat,
    settings: Settings,
    n: int,
) -> (i: int)
    requires
        0 <= n <= entries.len(),
        exists|j: int| 0 <= j < n && settings.near(#[trigger] entries[j], want),
    ensures
        0 <= i < n,
        settings.near(entries[i], want),
        forall|j: int|
            0 <= j < n && settings.near(#[trigger] entries[j], want) ==> drift(
                entries[i].duration_ns as nat,
                want,
            ) <= drift(entries[j].duration_ns as nat, want),
        forall|j: int|
            0 <= j < i && settings.near(#[trigger] entries[j], want) ==> drift(
                entries[i].duration_ns as nat,
                want,
            ) < drift(entries[j].duration_ns as nat, want),
    decreases n,
{
    if exists|j: int| 0 <= j < n - 1 && settings.near(#[trigger] entries[j], want) {
        let i = lemma_nearest_exists(entries, want, settings, n - 1);
        if settings.near(entries[n - 1], want) && drift(entries[n - 1].duration_ns as nat, want)
            < drift(entries[i].duration_ns as nat, want) {
            n - 1
        } else {
            i
        }
    } else {
        n - 1
    }
}

/// Whether a share is at least so many billionths of a percent.
pub open spec fn is_at_least(share: Share, cutoff: int) -> bool {
    100 * share.matched * 1_000_000_000 >= cutoff * share.total
}

/// Whether the key at a place is the most similar one: it reaches the threshold, none has a larger
/// share in common, and none before it has as large a one.
pub open spec fn is_most_similar(
    query: Seq<char>,
    keys: Seq<Seq<char>>,
    threshold: int,
    i: int,
) -> bool {
    &&& 0 <= i < keys.len()
    &&& is_at_least(word_similarity(query, keys[i]), threshold)
    &&& forall|j: int|
        0 <= j < keys.len() ==> word_similarity(query, #[trigger] keys[j]).matched
            * word_similarity(query, keys[i]).total <= word_similarity(query, keys[i]).matched
            * word_similarity(query, keys[j]).total
    &&& forall|j: int|
        0 <= j < i ==> word_similarity(query, #[trigger] keys[j]).matched * word_similarity(
            query,
            keys[i],
        ).total < word_similarity(query, keys[i]).matched * word_similarity(query, keys[j]).total
}

/// A best candidate is the first of the most similar ones, and there is one unless none reaches
/// the cutoff.
pub proof fn law_best_is_the_most_similar(
    query: Seq<char>,
    candidates: Seq<Seq<char>>,
    cutoff: int,
    i: int,
)
    ensures
        is_best(query, candidates, cutoff, i) <==> is_most_similar(query, candidates, cutoff, i),
        none_reaches(query, candidates, cutoff) <==> forall|j: int|
            0 <= j < candidates.len() ==> !is_at_least(
                word_similarity(query, #[trigger] candidates[j]),
                cutoff,
            ),
        none_reaches(query, candidates, cutoff) <==> !exists|k: int|
            is_most_similar(query, candidates, cutoff, k),
{
    lemma_best_is_raw(query, candidates, cutoff, i);
    if !none_reaches(query, candidates, cutoff) {
        lemma_best_exists(query, candidates, cutoff);
        let k = choose|k: int| is_best(query, candidates, cutoff, k);
        lemma_best_is_raw(query, candidates, cutoff, k);
        assert(is_most_similar(query, candidates, cutoff, k));
    }
    if exists|k: int| is_most_similar(query, candidates, cutoff, k) {
        let k = choose|k: int| is_most_similar(query, candidates, cutoff, k);
        assert(word_similarity(query, candidates[k]).reaches(cutoff));
    }
}

proof fn lemma_best_is_raw(
    query: Seq<char>,
    candidates: Seq<Seq<char>>,
    cutoff: int,
    i: int,
)
    ensures
        is_best(query, candidates, cutoff, i) <==> is_most_similar(query, candidates, cutoff, i),
{
    let all = candidates;
    if is_best(query, all, cutoff, i) {
        assert forall|j: int| 0 <= j < all.len() implies word_similarity(
            query,
            #[trigger] all[j],
        ).matched * word_similarity(query, all[i]).total <= word_similarity(query, all[i]).matched
            * word_similarity(query, all[j]).total by {
            assert(!word_similarity(query, all[i]).less(word_similarity(query, all[j])));
        }
    }
    if is_most_similar(query, all, cutoff, i) {
        assert forall|j: int| 0 <= j < all.len() implies !word_similarity(query, all[i]).less(
            word_similarity(query, #[trigger] all[j]),
        ) by {}
    }
}

/// Whether a track has an ISRC that is in the library.
pub open spec fn is_known_by_isrc(track: TrackView, lib: Library) -> bool {
    track.isrc.len() > 0 && lib.by_isrc@.contains_key(track.isrc)
}

/// A track whose ISRC is not in the library is matched exactly like the same track with no ISRC
/// at all.
pub proof fn law_unknown_isrc_is_ignored(
    track: TrackView,
    key: Seq<char>,
    lib: Library,
    settings: Settings,
)
    requires
        !is_known_by_isrc(track, lib),
    ensures
        match_of(track, key, lib, settings) == match_of(
            (TrackView { isrc: Seq::empty(), ..track }),
            key,
            lib,
            settings,
        ),
{
}

/// A match depends on nothing of a track but its ISRC, its length and its key.
pub proof fn law_match_depends_on_isrc_key_and_length(
    track: TrackView,
    other: TrackView,
    key: Seq<char>,
    lib: Library,
    settings: Settings,
)
    requires
        track.isrc == other.isrc,
        track.duration_ms == other.duration_ms,
    ensures
        match_of(track, key, lib, settings) == match_of(other, key, lib, settings),
{
}

/// Where the ISRC is not in the library but the key is, the match is exact, and the file is the
/// one that is picked among those with the key.
pub proof fn law_known_key_is_an_exact_match(
    track: TrackView,
    key: Seq<char>,
    lib: Library,
    settings: Settings,
)
    requires
        !is_known_by_isrc(track, lib),
        lib.by_key@.contains_key(key),
    ensures
        match_of(track, key, lib, settings) == Some(
            (
                lib.by_key@[key]@[pick_of(lib.by_key@[key]@, track.duration_ms, settings)].file,
                Method::Exact,
            ),
        ),
{
}

/// Where neither ISRC nor key is in the library, the most similar key decides. If the artist half
/// of it agrees by at least eighty percent, the match is fuzzy, and the file is the one that is
/// picked among those with that key; if it does not, or if no key reaches the threshold, there is
/// no match.
pub proof fn law_most_similar_key_decides(
    track: TrackView,
    key: Seq<char>,
    lib: Library,
    settings: Settings,
    i: int,
)
    requires
        lib.wf(),
        !is_known_by_isrc(track, lib),
        !lib.by_key@.contains_key(key),
    ensures
        is_most_similar(key, views(lib.keys@), settings.threshold as int, i) ==> {
            let found = lib.keys@[i]@;
            let agreement = word_similarity(artist_half(key), artist_half(found));
            let entries = lib.by_key@[found]@;
            match_of(track, key, lib, settings) == if 100 * agreement.matched >= 80
                * agreement.total {
                Some((entries[pick_of(entries, track.duration_ms, settings)].file, Method::Fuzzy))
            } else {
                None
            }
        },
        (forall|k: int| !is_most_similar(key, views(lib.keys@), settings.threshold as int, k))
            ==> match_of(track, key, lib, settings) is None,
{
    let keys = views(lib.keys@);
    let cutoff = settings.threshold as int;
    law_best_is_the_most_similar(key, keys, cutoff, i);
    if is_most_similar(key, keys, cutoff, i) {
        assert(!none_reaches(key, keys, cutoff));
        law_best_is_unique(key, keys, cutoff, i, best_of(key, keys, cutoff));
    }
}

/// A track that has the normalised artist and title of a file in the library, and no ISRC that is
/// in it, is matched to a file with that artist and title.
pub proof fn law_named_file_is_found(
    track: TrackView,
    lib: Library,
    files: Seq<Option<FileTags>>,
    settings: Settings,
    i: int,
)
    requires
        lib.holds(all_filed(files)),
        !is_known_by_isrc(track, lib),
        0 <= i < files.len(),
        files[i] is Some,
        files[i]->Some_0@.title.len() > 0,
        normal(files[i]->Some_0@.artist) == normal(track.artist),
        normal(files[i]->Some_0@.title) == normal(track.title),
    ensures
        match_of(track, key_of(track.artist, track.title), lib, settings) matches Some(
            (file, Method::Exact),
        ) && file < files.len() && files[file as int] is Some && normal(
            files[file as int]->Some_0@.artist,
        ) == normal(track.artist) && normal(files[file as int]->Some_0@.title) == normal(
            track.title,
        ),
{
    let key = key_of(track.artist, track.title);
    let tags = files[i]->Some_0@;
    law_keys_tell_names_apart(track.artist, track.title, tags.artist, tags.title);
    law_every_file_is_indexed(lib, files, i);
    law_index_has_only_files(lib, files);
    let entries = lib.by_key@[key]@;
    law_pick_is_the_nearest(entries, track.duration_ms, settings);
    let picked = entries[pick_of(entries, track.duration_ms, settings)];
    let found = files[picked.file as int]->Some_0@;
    law_keys_tell_names_apart(track.artist, track.title, found.artist, found.title);
}

/// A track with the ISRC of a file in the library is matched to a file with that ISRC.
pub proof fn law_isrc_finds_its_file(
    track: TrackView,
    key: Seq<char>,
    lib: Library,
    files: Seq<Option<FileTags>>,
    settings: Settings,
    i: int,
)
    requires
        lib.holds(all_filed(files)),
        0 <= i < files.len(),
        files[i] is Some,
        files[i]->Some_0@.isrc == track.isrc,
        track.isrc.len() > 0,
    ensures
        match_of(track, key, lib, settings) matches Some((file, Method::Isrc)) && file <= i
            && files[file as int] is Some && files[file as int]->Some_0@.isrc == track.isrc,
{
    law_every_file_is_indexed(lib, files, i);
}

} // verus!
