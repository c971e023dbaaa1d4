use navidrome_import::exportify::{
    duration_ms, load, load_sheets, norm_header, parse_csv, parse_sheet, read_sheet,
    resolve_columns, settle, split_artists, Parsed, Reading, Sheet, SheetOutcome,
};
use navidrome_import::model::{track_total, Playlist, Track};

fn texts(items: &[&str]) -> Vec<String> {
    items.iter().map(|s| s.to_string()).collect()
}

fn playlist(outcome: SheetOutcome) -> Parsed {
    match outcome {
        SheetOutcome::Playlist(parsed) => parsed,
        SheetOutcome::NoTitle(headers) => panic!("no title among {headers:?}"),
    }
}

fn millis(raw: &str, header: &str) -> u64 {
    match duration_ms(raw, header) {
        Reading::Millis(n) => n,
        other => panic!("{other:?}"),
    }
}

#[test]
fn headers_lose_all_but_letters_and_digits() {
    assert_eq!(norm_header("Track Duration (ms)"), "trackdurationms");
    assert_eq!(norm_header("Artist Name(s)"), "artistnames");
    assert_eq!(norm_header("Tïtle"), "ttle");
}

#[test]
fn columns_are_found_by_any_spelling() {
    let cols = resolve_columns(&texts(&[
        "Track URI",
        "Track Name",
        "Artist Name(s)",
        "Album Name",
        "Album Artist Name(s)",
        "Track Duration (ms)",
        "ISRC",
    ]));
    assert_eq!(cols.uri, Some(0));
    assert_eq!(cols.title, Some(1));
    assert_eq!(cols.artist, Some(2));
    assert_eq!(cols.album, Some(3));
    assert_eq!(cols.album_artist, Some(4));
    assert_eq!(cols.duration, Some(5));
    assert_eq!(cols.isrc, Some(6));
}

#[test]
fn preferred_spelling_wins_and_the_last_of_equals() {
    let cols = resolve_columns(&texts(&["Title", "Name", "Name", "Duration"]));
    assert_eq!(cols.title, Some(2));
    assert_eq!(cols.duration, Some(3));
    assert_eq!(cols.isrc, None);
}

#[test]
fn milliseconds_stay_when_the_header_says_so() {
    assert_eq!(millis("215000", "Track Duration (ms)"), 215000);
    assert_eq!(millis("5000", "Duration (ms)"), 5000);
}

#[test]
fn small_numbers_are_seconds_otherwise() {
    assert_eq!(millis("215", "Duration"), 215000);
    assert_eq!(millis("9999", "Duration"), 9999000);
    assert_eq!(millis("10000", "Duration"), 10000);
}

#[test]
fn whole_numbers_are_exact_up_to_the_limit() {
    assert_eq!(millis("1000000000000000", "Duration"), 1_000_000_000_000_000);
    assert_eq!(millis("9007199254740991", "Duration"), 9_007_199_254_740_991);
    assert_eq!(millis("000000000000000000000215", "Duration"), 215_000);
    match duration_ms("9007199254740992", "Duration") {
        Reading::Decimal { text, .. } => assert_eq!(text, "9007199254740992"),
        other => panic!("{other:?}"),
    }
}

#[test]
fn clock_times_add_up() {
    assert_eq!(millis("3:35", "Duration"), 215000);
    assert_eq!(millis(" 1:02:03 ", "Duration (ms)"), 3723000);
    assert_eq!(millis("", "Duration"), 0);
    assert_eq!(millis("   ", "Duration"), 0);
}

#[test]
fn what_is_not_whole_is_left_to_be_measured() {
    match duration_ms(" 3.5 ", "Duration (ms)") {
        Reading::Decimal { text, header_says_ms } => {
            assert_eq!(text, "3.5");
            assert!(header_says_ms);
        }
        other => panic!("{other:?}"),
    }
    match duration_ms("3:35.5", "Duration") {
        Reading::Clock(parts) => assert_eq!(parts, texts(&["3", "35.5"])),
        other => panic!("{other:?}"),
    }
    match duration_ms("3:", "Duration") {
        Reading::Clock(parts) => assert_eq!(parts, texts(&["3", ""])),
        other => panic!("{other:?}"),
    }
    match duration_ms("soon", "Duration") {
        Reading::Decimal { header_says_ms, .. } => assert!(!header_says_ms),
        other => panic!("{other:?}"),
    }
}

#[test]
fn artists_split_at_semicolons_first() {
    assert_eq!(split_artists("Big Pun;Fat Joe"), texts(&["Big Pun", "Fat Joe"]));
    assert_eq!(split_artists("Tyler, The Creator; Frank Ocean"), texts(&["Tyler, The Creator", "Frank Ocean"]));
    assert_eq!(split_artists("A, B;C;D, E"), texts(&["A, B", "C", "D, E"]));
    assert_eq!(split_artists("Simon, Garfunkel"), texts(&["Simon", "Garfunkel"]));
    assert_eq!(split_artists(" ; A ;; "), texts(&["A"]));
    assert!(split_artists("").is_empty());
}

#[test]
fn csv_becomes_a_playlist() {
    let text = "\u{feff}Track URI,Track Name,Artist Name(s),Album Name,Album Artist Name(s),Track Duration (ms),ISRC\r\n\
spotify:track:abc,\"Song, One\",Big Pun;Fat Joe,Album,Big Pun,215000,us-rc1-23-45678\r\n\
spotify:local:x, Two ,Solo,,,3.5,\r\n\
spotify:track:nope,   ,Nobody,,,,\r\n\
short\r\n";
    let parsed = playlist(parse_csv("Road_Trip_", text).unwrap());
    let pl = &parsed.playlist;
    assert_eq!(pl.name, "Road Trip");
    assert_eq!(pl.spotify_id, "");
    assert_eq!(pl.owner, "");
    assert!(pl.mine);
    assert_eq!(pl.tracks.len(), 2);
    let one = &pl.tracks[0];
    assert_eq!(one.position, 0);
    assert_eq!(one.title, "Song, One");
    assert_eq!(one.artist, "Big Pun");
    assert_eq!(one.artists, texts(&["Big Pun", "Fat Joe"]));
    assert_eq!(one.album, "Album");
    assert_eq!(one.album_artist, "Big Pun");
    assert_eq!(one.duration_ms, 215000);
    assert_eq!(one.isrc, "USRC12345678");
    assert_eq!(one.spotify_id, "abc");
    assert!(!one.is_local);
    let two = &pl.tracks[1];
    assert_eq!(two.position, 1);
    assert_eq!(two.title, "Two");
    assert_eq!(two.spotify_id, "");
    assert!(two.is_local);
    assert_eq!(parsed.with_isrc, 1);
    assert_eq!(parsed.bad_rows, 0);
    assert_eq!(parsed.readings.len(), 2);
}

#[test]
fn quoted_cells_span_lines() {
    let sheet = read_sheet("a,b\n\"x\ny\",\"say \"\"hi\"\"\"\n").unwrap();
    assert_eq!(sheet.header, texts(&["a", "b"]));
    assert_eq!(sheet.rows, vec![Some(texts(&["x\ny", "say \"hi\""]))]);
}

#[test]
fn no_text_is_refused() {
    for text in ["", "\n\n", "\"", "a,\"b\nc", "é\"x\"ü,\r\n日,本,語\n", "\0,\u{feff}\n\"\u{1f3b5}\"\"\n"] {
        let sheet = read_sheet(text).unwrap();
        assert!(sheet.rows.iter().all(|row| row.is_some()), "{text:?}");
        assert!(parse_csv("p", text).is_ok());
    }
}

#[test]
fn sheet_without_titles_shows_its_first_headers() {
    let outcome = parse_csv("x", "a,b,c,d,e,f,g\n1,2,3,4,5,6,7\n").unwrap();
    match outcome {
        SheetOutcome::NoTitle(sample) => assert_eq!(sample, texts(&["a", "b", "c", "d", "e", "f"])),
        other => panic!("{other:?}"),
    }
    match parse_csv("x", "").unwrap() {
        SheetOutcome::NoTitle(sample) => assert!(sample.is_empty()),
        other => panic!("{other:?}"),
    }
}

#[test]
fn bad_rows_cost_nothing_else() {
    let sheet = Sheet {
        header: texts(&["Title", "Artist"]),
        rows: vec![Some(texts(&["One", "A"])), None, Some(texts(&["Two"]))],
    };
    let parsed = playlist(parse_sheet("p", &sheet));
    assert_eq!(parsed.bad_rows, 1);
    assert_eq!(parsed.playlist.tracks.len(), 2);
    assert_eq!(parsed.playlist.tracks[1].title, "Two");
    assert_eq!(parsed.playlist.tracks[1].position, 1);
    assert_eq!(parsed.playlist.tracks[1].artist, "");
}

#[test]
fn measured_durations_fill_the_open_ones() {
    let text = "Title,Duration\nOne,200\nTwo,3.5\n";
    let parsed = playlist(parse_csv("p", text).unwrap());
    assert_eq!(parsed.playlist.tracks[1].duration_ms, 0);
    let pl = settle(parsed, &vec![1, 3500]);
    assert_eq!(pl.tracks[0].duration_ms, 200000);
    assert_eq!(pl.tracks[1].duration_ms, 3500);
    assert_eq!(pl.name, "p");
}

#[test]
fn load_keeps_the_order_and_skips_what_has_no_titles() {
    let sources = vec![
        ("b".to_string(), "Title,ISRC\nOne,X1\n".to_string()),
        ("junk".to_string(), "foo\nbar\n".to_string()),
        ("a".to_string(), "Title\nTwo\nThree\n".to_string()),
    ];
    let loaded = load(&sources).unwrap();
    let names: Vec<&str> = loaded.playlists.iter().map(|p| p.playlist.name.as_str()).collect();
    assert_eq!(names, ["b", "a"]);
    assert_eq!(loaded.skipped, vec![("junk".to_string(), texts(&["foo"]))]);
    assert_eq!(loaded.without_isrc, 1);
}

#[test]
fn empty_playlist_has_no_usable_isrc() {
    let sheets = vec![("none".to_string(), Sheet { header: texts(&["Name", "ISRC"]), rows: vec![] })];
    let loaded = load_sheets(&sheets);
    assert_eq!(loaded.playlists.len(), 1);
    assert_eq!(loaded.without_isrc, 1);
}

#[test]
fn tracks_of_all_playlists_are_counted() {
    let playlists = vec![
        Playlist { tracks: vec![Track::default(), Track::default()], ..Playlist::default() },
        Playlist::default(),
        Playlist { tracks: vec![Track::default()], ..Playlist::default() },
    ];
    assert_eq!(track_total(&playlists), 3);
    assert_eq!(track_total(&Vec::new()), 0);
}
