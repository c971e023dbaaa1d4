//! Playlists and their tracks.

use vstd::prelude::*;

use crate::text::{
    alphanumerics, is_alphanumeric, keep_alphanumeric, lemma_filter_all, to_upper, upper,
    uppercase, views,
};

verus! {

/// One entry of a playlist.
#[derive(Debug, Clone, Default)]
pub struct Track {
    pub position: usize,
    pub title: String,
    pub artist: String,
    pub artists: Vec<String>,
    pub album: String,
    pub album_artist: String,
    pub duration_ms: u64,
    pub isrc: String,
    pub spotify_id: String,
    pub is_local: bool,
}

/// A playlist with its tracks in order.
#[derive(Debug, Clone, Default)]
pub struct Playlist {
    pub name: String,
    pub spotify_id: String,
    pub owner: String,
    pub mine: bool,
    pub tracks: Vec<Track>,
}

/// Everything that one run has read.
#[derive(Debug, Clone, Default)]
pub struct Export {
    pub playlists: Vec<Playlist>,
}

/// What a track says.
#[verifier::ext_equal]
pub struct TrackView {
    pub position: nat,
    pub title: Seq<char>,
    pub artist: Seq<char>,
    pub artists: Seq<Seq<char>>,
    pub album: Seq<char>,
    pub album_artist: Seq<char>,
    pub duration_ms: nat,
    pub isrc: Seq<char>,
    pub spotify_id: Seq<char>,
    pub is_local: bool,
}

impl View for Track {
    type V = TrackView;

    open spec fn view(&self) -> TrackView {
        TrackView {
            position: self.position as nat,
            title: self.title@,
            artist: self.artist@,
            artists: views(self.artists@),
            album: self.album@,
            album_artist: self.album_artist@,
            duration_ms: self.duration_ms as nat,
            isrc: self.isrc@,
            spotify_id: self.spotify_id@,
            is_local: self.is_local,
        }
    }
}

/// What several tracks say.
pub open spec fn track_views(tracks: Seq<Track>) -> Seq<TrackView> {
    tracks.map_values(|t: Track| t@)
}

/// What a playlist says.
#[verifier::ext_equal]
pub struct PlaylistView {
    pub name: Seq<char>,
    pub spotify_id: Seq<char>,
    pub owner: Seq<char>,
    pub mine: bool,
    pub tracks: Seq<TrackView>,
}

impl View for Playlist {
    type V = PlaylistView;

    open spec fn view(&self) -> PlaylistView {
        PlaylistView {
            name: self.name@,
            spotify_id: self.spotify_id@,
            owner: self.owner@,
            mine: self.mine,
            tracks: track_views(self.tracks@),
        }
    }
}

/// What several playlists say.
pub open spec fn playlist_views(playlists: Seq<Playlist>) -> Seq<PlaylistView> {
    playlists.map_values(|p: Playlist| p@)
}

/// The letters and digits of an ISRC, in upper case.
pub open spec fn bare_isrc(raw: Seq<char>) -> Seq<char> {
    to_upper(alphanumerics(raw))
}

/// Normalises an ISRC for comparison. Spotify prints them grouped ("US-RC1-23-45678"), local tags
/// usually do not.
pub fn norm_isrc(raw: &str) -> (r: String)
    ensures
        r@ == bare_isrc(raw@),
{
    let kept = keep_alphanumeric(raw);
    uppercase(kept.as_str())
}

/// Grouping does not matter: an ISRC without its separators normalises to the same, and what is
/// normalised stays as it is.
pub proof fn law_isrc_grouping_is_ignored(raw: Seq<char>)
    ensures
        bare_isrc(alphanumerics(raw)) == bare_isrc(raw),
        bare_isrc(bare_isrc(raw)) == bare_isrc(raw),
{
    let p = |c: char| is_alphanumeric(c);
    let kept = alphanumerics(raw);
    assert forall|i: int| 0 <= i < kept.len() implies p(#[trigger] kept[i]) by {
        raw.lemma_filter_pred(p, i);
    }
    lemma_filter_all(kept, p);
    let bare = bare_isrc(raw);
    assert forall|i: int| 0 <= i < bare.len() implies p(#[trigger] bare[i]) && upper(bare[i])
        == bare[i] by {
        assert(p(kept[i]));
    }
    lemma_filter_all(bare, p);
    assert(to_upper(bare) =~= bare);
}

/// How many tracks playlists have together.
pub open spec fn track_count(playlists: Seq<PlaylistView>) -> nat
    decreases playlists.len(),
{
    if playlists.len() == 0 {
        0
    } else {
        track_count(playlists.drop_last()) + playlists.last().tracks.len()
    }
}

/// Counts the tracks of all playlists.
pub fn track_total(playlists: &Vec<Playlist>) -> (r: u128)
    ensures
        r == track_count(playlist_views(playlists@)),
{
    let ghost all = playlist_views(playlists@);
    let mut total: u128 = 0;
    let count = playlists.len();
    for i in 0..count
        invariant
            count == playlists@.len(),
            all == playlist_views(playlists@),
            total == track_count(all.take(i as int)),
            total <= i * 0xffff_ffff_ffff_ffff,
    {
        assert(all.take(i + 1).drop_last() =~= all.take(i as int));
        assert(all[i as int] == playlists@[i as int]@);
        total = total + playlists[i].tracks.len() as u128;
    }
    assert(all.take(all.len() as int) =~= all);
    total
}

/// What is said of tracks and playlists is what they hold, field by field.
pub proof fn law_views_say_what_is_held(track: Track, playlist: Playlist)
    ensures
        track@.position == track.position,
        track@.title == track.title@,
        track@.artist == track.artist@,
        track@.artists == views(track.artists@),
        track@.album == track.album@,
        track@.album_artist == track.album_artist@,
        track@.duration_ms == track.duration_ms,
        track@.isrc == track.isrc@,
        track@.spotify_id == track.spotify_id@,
        track@.is_local == track.is_local,
        playlist@.name == playlist.name@,
        playlist@.spotify_id == playlist.spotify_id@,
        playlist@.owner == playlist.owner@,
        playlist@.mine == playlist.mine,
        playlist@.tracks.len() == playlist.tracks@.len(),
        forall|i: int|
            0 <= i < playlist.tracks@.len() ==> #[trigger] playlist@.tracks[i]
                == playlist.tracks@[i]@,
{
}

/// A playlist adds its own tracks to the count.
pub proof fn law_tracks_add_up(playlists: Seq<PlaylistView>, more: PlaylistView)
    ensures
        track_count(playlists.push(more)) == track_count(playlists) + more.tracks.len(),
        track_count(Seq::empty()) == 0,
{
    assert(playlists.push(more).drop_last() =~= playlists);
}

} // verus!
