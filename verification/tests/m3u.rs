use navidrome_import::m3u::{body, entry, safe_name, write_all};

fn texts(items: &[&str]) -> Vec<String> {
    items.iter().map(|s| s.to_string()).collect()
}

#[test]
fn paths_are_relative_to_the_playlist_dir_not_the_library() {
    let dir = "/music/playlists";
    let track = "/music/Ice Cube/01.flac";
    let rel = entry(track, dir);
    assert_eq!(rel, "../Ice Cube/01.flac");
}

#[test]
fn safe_name_replaces_path_separators() {
    assert_eq!(safe_name("AC/DC"), "AC_DC");
    assert_eq!(safe_name("   "), "playlist");
}

#[test]
fn safe_name_replaces_every_illegal_character() {
    assert_eq!(safe_name("AC/DC <3"), "AC_DC _3");
    assert_eq!(safe_name(" a\\b:c*d?e\"f>g|h "), "a_b_c_d_e_f_g_h");
    assert_eq!(safe_name(""), "playlist");
}

#[test]
fn safe_name_stays_safe() {
    for name in ["AC/DC <3", "   ", " x ", "?"] {
        let once = safe_name(name);
        assert_eq!(safe_name(&once), once);
    }
}

#[test]
fn entries_lead_up_and_down() {
    assert_eq!(entry("/music/playlists/x.flac", "/music/playlists"), "x.flac");
    assert_eq!(entry("/media/a/b.flac", "/music/playlists/"), "../../media/a/b.flac");
    assert_eq!(entry("/music/a.flac", "playlists"), "/music/a.flac");
    assert_eq!(entry("music/a.flac", "/playlists"), "music/a.flac");
    assert_eq!(entry("music/a.flac", "music/playlists"), "../a.flac");
}

#[test]
fn playlist_files_begin_with_their_kind() {
    assert_eq!(body(&texts(&["../a.flac", "b.mp3"])), "#EXTM3U\n../a.flac\nb.mp3\n");
    assert_eq!(body(&Vec::new()), "#EXTM3U\n");
}

#[test]
fn one_file_per_playlist_that_has_something() {
    let playlists = vec![
        ("Road/Trip".to_string(), vec![1, 0, 1]),
        ("Empty".to_string(), vec![]),
        ("Gym".to_string(), vec![0]),
    ];
    let paths = texts(&["/music/a.flac", "/music/x/b.flac"]);
    assert_eq!(
        write_all("/music/playlists", &playlists, &paths),
        vec![
            (
                "Road_Trip.m3u".to_string(),
                "#EXTM3U\n../x/b.flac\n../a.flac\n../x/b.flac\n".to_string()
            ),
            ("Gym.m3u".to_string(), "#EXTM3U\n../a.flac\n".to_string()),
        ]
    );
}

#[test]
fn names_that_become_one_file_are_handed_out_once() {
    let playlists = vec![
        ("A/B".to_string(), vec![0]),
        ("Gym".to_string(), vec![1]),
        ("A:B".to_string(), vec![1, 0]),
        ("A*B".to_string(), vec![]),
    ];
    let paths = texts(&["/m/a.flac", "/m/b.flac"]);
    assert_eq!(
        write_all("/m", &playlists, &paths),
        vec![
            ("A_B.m3u".to_string(), "#EXTM3U\nb.flac\na.flac\n".to_string()),
            ("Gym.m3u".to_string(), "#EXTM3U\nb.flac\n".to_string()),
        ]
    );
}
