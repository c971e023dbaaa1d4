use navidrome_import::library::{index, is_audio, Entry, Library};
use navidrome_import::model::{Playlist, Track};
use navidrome_import::outcome::{members, ordered, resolve, show_track, tally, Counts, Outcome};
use navidrome_import::report::{percent, progress, report, summary, unmatched, write_lines};
use navidrome_import::resolve::{match_key, match_track, pick, Method, Settings};
use navidrome_import::tags::FileTags;

const DEFAULTS: Settings = Settings { threshold: 88_000_000_000, tolerance_ns: Some(7_000_000_000) };

fn texts(items: &[&str]) -> Vec<String> {
    items.iter().map(|s| s.to_string()).collect()
}

fn file(artist: &str, title: &str, isrc: &str, seconds: u128) -> Option<FileTags> {
    Some(FileTags {
        artist: artist.to_string(),
        title: title.to_string(),
        isrc: isrc.to_string(),
        duration_ns: seconds * 1_000_000_000,
    })
}

fn track(artist: &str, title: &str, isrc: &str, duration_ms: u64) -> Track {
    Track {
        artist: artist.to_string(),
        title: title.to_string(),
        isrc: isrc.to_string(),
        duration_ms,
        ..Track::default()
    }
}

fn playlist(name: &str, tracks: Vec<Track>) -> Playlist {
    Playlist { name: name.to_string(), tracks, ..Playlist::default() }
}

fn some_library() -> Library {
    index(&vec![
        file("Ice Cube", "It Was a Good Day", "USPR39300008", 260),
        None,
        file("ice cube", "It was a good day!", "", 300),
        file("Nobody", "", "QQQ", 10),
        file("Simon & Garfunkel", "The Boxer", "", 0),
        file("Copycat", "The Boxer", "USPR39300008", 200),
    ])
}

#[test]
fn audio_files_go_by_their_extension() {
    for path in ["a.flac", "/x/y.MP3", "z.m4a", "z.mp4", "z.ogg", "z.opus", "z.wav", "z.aiff", "z.wv"] {
        assert!(is_audio(path), "{path}");
    }
    for path in ["a.txt", "flac", ".flac", "a.flac.part"] {
        assert!(!is_audio(path), "{path}");
    }
}

#[test]
fn library_files_every_title_under_its_key() {
    let lib = some_library();
    assert_eq!(lib.files_seen, 6);
    assert_eq!(lib.unreadable, 1);
    assert_eq!(
        lib.keys,
        texts(&["ice cube|it was a good day", "simon garfunkel|the boxer", "copycat|the boxer"])
    );
    let entries = lib.by_key.get("ice cube|it was a good day").unwrap();
    let files: Vec<usize> = entries.iter().map(|e| e.file).collect();
    assert_eq!(files, [0, 2]);
    assert_eq!(entries[1].duration_ns, 300_000_000_000);
    assert_eq!(lib.by_isrc.get("QQQ"), Some(&3));
}

#[test]
fn first_file_with_an_isrc_wins() {
    assert_eq!(some_library().by_isrc.get("USPR39300008"), Some(&0));
}

#[test]
fn files_can_be_added_one_by_one() {
    let mut lib = Library::new(2);
    lib.add_isrc(1, "X");
    lib.add_isrc(0, "X");
    lib.add_isrc(0, "");
    lib.add_key(Entry { file: 1, duration_ns: 5 }, "a|b");
    lib.add_key(Entry { file: 0, duration_ns: 6 }, "a|b");
    assert_eq!(lib.keys, texts(&["a|b"]));
    assert_eq!(lib.by_key.get("a|b").unwrap().len(), 2);
    assert_eq!(lib.by_isrc.len(), 1);
    assert_eq!(lib.by_isrc.get("X"), Some(&1));
}

#[test]
fn untitled_file_is_found_by_isrc_alone() {
    let lib = index(&vec![
        file("Nobody", "", "QQQ", 10),
        file("Nobody", "", "", 20),
        file("Someone", "Song", "QQQ", 30),
    ]);
    assert_eq!(lib.by_isrc.get("QQQ"), Some(&0));
    assert_eq!(lib.keys, texts(&["someone|song"]));
    assert_eq!(lib.by_key.len(), 1);
    assert_eq!(match_track(&track("?", "?", "QQQ", 0), &lib, &DEFAULTS), Some((0, Method::Isrc)));
    assert_eq!(match_track(&track("Nobody", "", "", 0), &lib, &DEFAULTS), None);
}

#[test]
fn isrc_is_immune_to_spelling() {
    let lib = some_library();
    let found = match_track(&track("???", "!!!", "USPR39300008", 0), &lib, &DEFAULTS);
    assert_eq!(found, Some((0, Method::Isrc)));
}

#[test]
fn exact_match_picks_the_nearest_duration() {
    let lib = some_library();
    let day = |ms| match_track(&track("Ice Cube", "It Was A Good Day", "", ms), &lib, &DEFAULTS);
    assert_eq!(day(299_000), Some((2, Method::Exact)));
    assert_eq!(day(260_500), Some((0, Method::Exact)));
    assert_eq!(day(0), Some((0, Method::Exact)));
    // Neither file is within the tolerance, so the first one is taken.
    assert_eq!(day(280_000), Some((0, Method::Exact)));
}

#[test]
fn unknown_isrc_falls_back_to_the_key() {
    let found = match_track(&track("Copycat", "The Boxer", "NONE", 0), &some_library(), &DEFAULTS);
    assert_eq!(found, Some((5, Method::Exact)));
}

#[test]
fn fuzzy_match_needs_the_artist() {
    let lib = index(&vec![file("ab", "somewhere over the rainbow tonight", "", 0)]);
    let near = match_track(&track("ab", "somewhere over the rainbow tonigh", "", 0), &lib, &DEFAULTS);
    assert_eq!(near, Some((0, Method::Fuzzy)));
    let cover = match_track(&track("xy", "somewhere over the rainbow tonight", "", 0), &lib, &DEFAULTS);
    assert_eq!(cover, None);
    let far = match_track(&track("ab", "nothing of the sort", "", 0), &lib, &DEFAULTS);
    assert_eq!(far, None);
}

#[test]
fn word_order_makes_a_fuzzy_match() {
    let found = match_key(
        &track("", "", "", 0),
        "garfunkel simon|the boxer",
        &index(&vec![file("simon garfunkel", "the boxer", "", 0)]),
        &Settings { threshold: 60_000_000_000, tolerance_ns: None },
    );
    assert_eq!(found, Some((0, Method::Fuzzy)));
}

#[test]
fn first_of_equally_near_files_is_picked() {
    let entries = vec![
        Entry { file: 7, duration_ns: 0 },
        Entry { file: 8, duration_ns: 101_000_000_000 },
        Entry { file: 9, duration_ns: 99_000_000_000 },
    ];
    assert_eq!(pick(&entries, 100_000, &DEFAULTS), 8);
    assert_eq!(pick(&entries, 98_999, &DEFAULTS), 9);
    assert_eq!(pick(&entries, 100_000, &Settings { tolerance_ns: None, ..DEFAULTS }), 7);
    assert_eq!(pick(&entries, 100_000, &Settings { tolerance_ns: Some(999_999_999), ..DEFAULTS }), 7);
    assert_eq!(pick(&entries, 100_000, &Settings { tolerance_ns: Some(1_000_000_000), ..DEFAULTS }), 8);
}

fn some_outcome() -> (Vec<Playlist>, Outcome) {
    let day = || track("Ice Cube", "It Was A Good Day", "", 0);
    let playlists = vec![
        playlist("Gym", vec![day(), track("Nobody", "Nowhere", "", 0), day()]),
        playlist("Party", vec![track("", "x", "USPR39300008", 0), track("Copycat", "The Boxer", "", 0)]),
        playlist("Empty", vec![]),
    ];
    let out = resolve(&playlists, &some_library(), &DEFAULTS);
    (playlists, out)
}

#[test]
fn file_names_all_its_playlists() {
    let (_, out) = some_outcome();
    assert_eq!(out.membership.len(), 6);
    assert_eq!(out.membership[0], texts(&["Gym", "Party"]));
    assert_eq!(out.membership[5], texts(&["Party"]));
    assert!(out.membership[1].is_empty());
    assert_eq!(members(&out.membership, 1), vec![0, 5]);
    assert_eq!(members(&out.membership, 2), vec![0]);
}

#[test]
fn every_track_is_found_or_missing() {
    let (playlists, out) = some_outcome();
    assert_eq!(out.resolved.get("Gym"), Some(&vec![0, 0]));
    assert_eq!(out.resolved.get("Party"), Some(&vec![0, 5]));
    assert_eq!(out.resolved.get("Empty"), Some(&vec![]));
    assert_eq!(out.matched, vec![2, 2, 0]);
    assert_eq!(out.missing, vec![("Gym".to_string(), texts(&["Nobody - Nowhere"]))]);
    let Counts { isrc, exact, fuzzy } = out.by_method;
    assert_eq!((isrc, exact, fuzzy), (1, 3, 0));
    assert_eq!(
        ordered(&playlists, &out.resolved),
        vec![
            ("Gym".to_string(), vec![0, 0]),
            ("Party".to_string(), vec![0, 5]),
            ("Empty".to_string(), vec![]),
        ]
    );
}

#[test]
fn last_playlist_of_a_name_wins() {
    let playlists = vec![
        playlist("Mix", vec![track("a", "b", "", 0)]),
        playlist("Mix", vec![track("c", "d", "", 0), track("e", "f", "", 0)]),
    ];
    let found = vec![
        vec![Some((1, Method::Exact))],
        vec![Some((2, Method::Fuzzy)), Some((0, Method::Isrc))],
    ];
    let out = tally(&playlists, &found, 3);
    assert_eq!(out.resolved.get("Mix"), Some(&vec![2, 0]));
    assert_eq!(out.membership, vec![texts(&["Mix"]), texts(&["Mix"]), texts(&["Mix"])]);
    assert_eq!(
        ordered(&playlists, &out.resolved),
        vec![("Mix".to_string(), vec![2, 0]), ("Mix".to_string(), vec![2, 0])]
    );
    assert!(out.missing.is_empty());
}

#[test]
fn tracks_show_a_question_mark_for_what_is_unknown() {
    assert_eq!(show_track(&track("A", "B", "", 0)), "A - B");
    assert_eq!(show_track(&track("", "B", "", 0)), "? - B");
    assert_eq!(show_track(&track("A", "", "", 0)), "A - ?");
}

#[test]
fn methods_are_listed_in_order() {
    assert_eq!(summary(&Counts { isrc: 12, exact: 3, fuzzy: 1 }), "exact=3, fuzzy=1, isrc=12");
    assert_eq!(summary(&Counts { isrc: 2, exact: 0, fuzzy: 0 }), "isrc=2");
    assert_eq!(summary(&Counts { isrc: 0, exact: 0, fuzzy: 0 }), "none");
}

#[test]
fn report_counts_files_once() {
    let (playlists, out) = some_outcome();
    assert_eq!(
        report(&out, playlists.len()),
        "\nmatch method: exact=3, isrc=1\n2 unique files across 3 playlists\n1 files belong to more than one playlist (stored once, tagged with all)"
    );
}

#[test]
fn percents_round_to_the_nearest() {
    assert_eq!(percent(0, 0), 0);
    assert_eq!(percent(2, 3), 67);
    assert_eq!(percent(1, 3), 33);
    assert_eq!(percent(1, 8), 12);
    assert_eq!(percent(3, 8), 38);
    assert_eq!(percent(5, 5), 100);
    for whole in 1..200usize {
        for part in 0..=whole {
            let shown = format!("{:.0}", 100.0 * part as f64 / whole as f64);
            assert_eq!(percent(part, whole).to_string(), shown, "{part}/{whole}");
        }
    }
    assert_eq!(progress("Gym", 2, 3), "Gym: 2/3 matched (67%)");
}

#[test]
fn missing_tracks_are_listed_by_playlist() {
    assert_eq!(unmatched(&Vec::new()), None);
    let missing = vec![
        ("Gym".to_string(), texts(&["A - B", "? - C"])),
        ("Party".to_string(), texts(&["D - E"])),
    ];
    assert_eq!(
        unmatched(&missing),
        Some(("\n== Gym (2) ==\nA - B\n? - C\n\n== Party (1) ==\nD - E\n".to_string(), 3))
    );
    assert_eq!(write_lines(&texts(&["x", "y"])), "x\ny\n");
}
