//! How the cells of a sheet get into the tracks of a playlist.

use vstd::prelude::*;

use crate::exportify::{
    artists_in, bare_header, cell, column, first_found, last_named, row_reading, row_track,
    settled_millis, sheet_tracks, titled_rows, Field, SheetView,
};
use crate::model::{bare_isrc, TrackView};
use crate::text::{begins_with, behind, lemma_filter_push, trim};

verus! {

/// Whether a column goes by one of some names.
pub open spec fn goes_by(header: Seq<Seq<char>>, c: int, names: Seq<Seq<char>>) -> bool {
    0 <= c < header.len() && names.contains(bare_header(header[c]))
}

proof fn lemma_last_named(header: Seq<Seq<char>>, name: Seq<char>)
    ensures
        match last_named(header, name) {
            Some(c) => {
                &&& 0 <= c < header.len()
                &&& bare_header(header[c]) == name
                &&& forall|d: int|
                    c < d < header.len() ==> bare_header(#[trigger] header[d]) != name
            },
            None => forall|d: int|
                0 <= d < header.len() ==> bare_header(#[trigger] header[d]) != name,
        },
    decreases header.len(),
{
    if header.len() > 0 && bare_header(header.last()) != name {
        let front = header.drop_last();
        lemma_last_named(front, name);
        assert(header.last() == header[header.len() - 1]);
        match last_named(front, name) {
            Some(c) => {
                assert(front[c] == header[c]);
                assert forall|d: int| c < d < header.len() implies bare_header(
                    #[trigger] header[d],
                ) != name by {
                    if d < front.len() {
                        assert(front[d] == header[d]);
                    }
                }
            },
            None => {
                assert forall|d: int| 0 <= d < header.len() implies bare_header(
                    #[trigger] header[d],
                ) != name by {
                    if d < front.len() {
                        assert(front[d] == header[d]);
                    }
                }
            },
        }
    }
}

proof fn lemma_first_found(header: Seq<Seq<char>>, names: Seq<Seq<char>>)
    ensures
        match first_found(header, names) {
            Some(c) => exists|k: int|
                {
                    &&& 0 <= k < names.len()
                    &&& last_named(header, #[trigger] names[k]) == Some(c)
                    &&& forall|j: int|
                        0 <= j < k ==> last_named(header, #[trigger] names[j]) is None
                },
            None => forall|j: int|
                0 <= j < names.len() ==> last_named(header, #[trigger] names[j]) is None,
        },
    decreases names.len(),
{
    if names.len() > 0 {
        if last_named(header, names[0]) is None {
            let rest = names.skip(1);
            lemma_first_found(header, rest);
            assert(forall|j: int| 0 <= j < rest.len() ==> #[trigger] rest[j] == names[j + 1]);
            match first_found(header, rest) {
                Some(c) => {
                    let k = choose|k: int|
                        {
                            &&& 0 <= k < rest.len()
                            &&& last_named(header, #[trigger] rest[k]) == Some(c)
                            &&& forall|j: int|
                                0 <= j < k ==> last_named(header, #[trigger] rest[j]) is None
                        };
                    assert(last_named(header, names[k + 1]) == Some(c));
                    assert forall|j: int| 0 <= j < k + 1 implies last_named(
                        header,
                        #[trigger] names[j],
                    ) is None by {
                        if j > 0 {
                            assert(rest[j - 1] == names[j]);
                        }
                    }
                },
                None => {
                    assert forall|j: int| 0 <= j < names.len() implies last_named(
                        header,
                        #[trigger] names[j],
                    ) is None by {
                        if j > 0 {
                            assert(rest[j - 1] == names[j]);
                        }
                    }
                },
            }
        } else {
            assert(last_named(header, names[0]) == first_found(header, names));
        }
    }
}

/// A field is found if and only if a column goes by one of its names. Its column goes by the most
/// preferred of the names that any column goes by, and is the last one that does.
pub proof fn law_column_is_found_by_any_spelling(header: Seq<Seq<char>>, field: Field)
    ensures
        match column(header, field) {
            Some(c) => {
                &&& goes_by(header, c, field.headers())
                &&& exists|k: int|
                    {
                        &&& 0 <= k < field.headers().len()
                        &&& bare_header(header[c]) == #[trigger] field.headers()[k]
                        &&& forall|d: int, j: int|
                            0 <= d < header.len() && 0 <= j < k ==> bare_header(
                                #[trigger] header[d],
                            ) != #[trigger] field.headers()[j]
                        &&& forall|d: int|
                            c < d < header.len() ==> bare_header(#[trigger] header[d])
                                != field.headers()[k]
                    }
            },
            None => forall|d: int| !#[trigger] goes_by(header, d, field.headers()),
        },
{
    let names = field.headers();
    lemma_first_found(header, names);
    match column(header, field) {
        Some(c) => {
            let k = choose|k: int|
                {
                    &&& 0 <= k < names.len()
                    &&& last_named(header, #[trigger] names[k]) == Some(c)
                    &&& forall|j: int|
                        0 <= j < k ==> last_named(header, #[trigger] names[j]) is None
                };
            lemma_last_named(header, names[k]);
            assert(bare_header(header[c]) == names[k]);
            assert forall|d: int, j: int| 0 <= d < header.len() && 0 <= j < k implies bare_header(
                #[trigger] header[d],
            ) != #[trigger] names[j] by {
                lemma_last_named(header, names[j]);
            }
        },
        None => {
            assert forall|d: int| !#[trigger] goes_by(header, d, names) by {
                if goes_by(header, d, names) {
                    let j = choose|j: int|
                        0 <= j < names.len() && names[j] == bare_header(header[d]);
                    lemma_last_named(header, names[j]);
                    assert(last_named(header, names[j]) is None);
                }
            }
        },
    }
}

/// Any of the spellings that are in use lands in the right slot.
pub proof fn law_spellings_in_use_are_known(header: Seq<Seq<char>>, c: int)
    requires
        0 <= c < header.len(),
    ensures
        ({
            let name = bare_header(header[c]);
            &&& name == "trackname"@ || name == "name"@ || name == "title"@ ==> column(
                header,
                Field::Title,
            ) is Some
            &&& name == "artistnames"@ || name == "artistname"@ || name == "artists"@ || name
                == "artist"@ ==> column(header, Field::Artist) is Some
            &&& name == "albumname"@ || name == "album"@ ==> column(header, Field::Album) is Some
            &&& name == "albumartistnames"@ || name == "albumartistname"@ || name
                == "albumartist"@ ==> column(header, Field::AlbumArtist) is Some
            &&& name == "trackdurationms"@ || name == "durationms"@ || name == "duration"@ || name
                == "tracklength"@ ==> column(header, Field::Duration) is Some
            &&& name == "isrc"@ ==> column(header, Field::Isrc) is Some
            &&& name == "trackuri"@ || name == "uri"@ || name == "trackid"@ || name
                == "spotifyid"@ ==> column(header, Field::Uri) is Some
        }),
{
    lemma_known(header, c, Field::Title);
    lemma_known(header, c, Field::Artist);
    lemma_known(header, c, Field::Album);
    lemma_known(header, c, Field::AlbumArtist);
    lemma_known(header, c, Field::Duration);
    lemma_known(header, c, Field::Isrc);
    lemma_known(header, c, Field::Uri);
    assert(Field::Title.headers()[0] == "trackname"@);
    assert(Field::Title.headers()[1] == "name"@);
    assert(Field::Title.headers()[2] == "title"@);
    assert(Field::Artist.headers()[0] == "artistnames"@);
    assert(Field::Artist.headers()[1] == "artistname"@);
    assert(Field::Artist.headers()[2] == "artists"@);
    assert(Field::Artist.headers()[3] == "artist"@);
    assert(Field::Album.headers()[0] == "albumname"@);
    assert(Field::Album.headers()[1] == "album"@);
    assert(Field::AlbumArtist.headers()[0] == "albumartistnames"@);
    assert(Field::AlbumArtist.headers()[1] == "albumartistname"@);
    assert(Field::AlbumArtist.headers()[2] == "albumartist"@);
    assert(Field::Duration.headers()[0] == "trackdurationms"@);
    assert(Field::Duration.headers()[1] == "durationms"@);
    assert(Field::Duration.headers()[2] == "duration"@);
    assert(Field::Duration.headers()[3] == "tracklength"@);
    assert(Field::Isrc.headers()[0] == "isrc"@);
    assert(Field::Uri.headers()[0] == "trackuri"@);
    assert(Field::Uri.headers()[1] == "uri"@);
    assert(Field::Uri.headers()[2] == "trackid"@);
    assert(Field::Uri.headers()[3] == "spotifyid"@);
}

proof fn lemma_known(header: Seq<Seq<char>>, c: int, field: Field)
    requires
        0 <= c < header.len(),
    ensures
        forall|k: int|
            0 <= k < field.headers().len() && bare_header(header[c])
                == #[trigger] field.headers()[k] ==> column(header, field) is Some,
{
    law_column_is_found_by_any_spelling(header, field);
    if column(header, field) is None {
        assert(!goes_by(header, c, field.headers()));
    }
}

/// The field that a name belongs to.
spec fn owner(s: Seq<char>) -> Field {
    let n = s.len();
    if n == 3 || (n == 7 && s[0] == 't') || (n == 8 && s[0] == 't') || (n == 9 && s[0] == 's') {
        Field::Uri
    } else if (n == 4 && s[0] == 'n') || (n == 5 && s[0] == 't') || (n == 9 && s[0] == 't') {
        Field::Title
    } else if n == 4 {
        Field::Isrc
    } else if (n == 5 && s[0] == 'a') || (n == 9 && s[0] == 'a') {
        Field::Album
    } else if n == 6 || n == 7 || (n == 10 && s[0] == 'a') || (n == 11 && s[0] == 'a' && s[2]
        == 't') {
        Field::Artist
    } else if n == 8 || n == 10 || (n == 11 && s[0] == 't') || (n == 15 && s[0] == 't') {
        Field::Duration
    } else {
        Field::AlbumArtist
    }
}

proof fn lemma_owner(field: Field, k: int)
    requires
        0 <= k < field.headers().len(),
    ensures
        owner(field.headers()[k]) == field,
{
    reveal_strlit("trackname");
    reveal_strlit("name");
    reveal_strlit("title");
    reveal_strlit("artistnames");
    reveal_strlit("artistname");
    reveal_strlit("artists");
    reveal_strlit("artist");
    reveal_strlit("albumname");
    reveal_strlit("album");
    reveal_strlit("albumartistnames");
    reveal_strlit("albumartistname");
    reveal_strlit("albumartist");
    reveal_strlit("trackdurationms");
    reveal_strlit("durationms");
    reveal_strlit("duration");
    reveal_strlit("tracklength");
    reveal_strlit("isrc");
    reveal_strlit("trackuri");
    reveal_strlit("uri");
    reveal_strlit("trackid");
    reveal_strlit("spotifyid");
    assert(k == 0 || k == 1 || k == 2 || k == 3);
}

/// No column belongs to two fields.
pub proof fn law_fields_have_columns_of_their_own(header: Seq<Seq<char>>, f: Field, g: Field)
    requires
        column(header, f) is Some,
        column(header, f) == column(header, g),
    ensures
        f == g,
{
    law_column_is_found_by_any_spelling(header, f);
    law_column_is_found_by_any_spelling(header, g);
    let name = bare_header(header[column(header, f)->Some_0]);
    let j = choose|j: int| 0 <= j < f.headers().len() && f.headers()[j] == name;
    let k = choose|k: int| 0 <= k < g.headers().len() && g.headers()[k] == name;
    lemma_owner(f, j);
    lemma_owner(g, k);
}

/// Whether two rows have the same cells but for those in the column of a field.
pub open spec fn differ_in(
    header: Seq<Seq<char>>,
    row: Seq<Seq<char>>,
    other: Seq<Seq<char>>,
    field: Field,
) -> bool {
    &&& row.len() == other.len()
    &&& forall|j: int|
        0 <= j < row.len() && column(header, field) != Some(j) ==> #[trigger] row[j] == other[j]
}

/// Whether two tracks agree in all that does not come from a field.
pub open spec fn agree_but_for(t: TrackView, u: TrackView, field: Field) -> bool {
    &&& t.position == u.position
    &&& field != Field::Title ==> t.title == u.title
    &&& field != Field::Artist ==> t.artist == u.artist && t.artists == u.artists
    &&& field != Field::Album ==> t.album == u.album
    &&& field != Field::AlbumArtist ==> t.album_artist == u.album_artist
    &&& field != Field::Duration ==> t.duration_ms == u.duration_ms
    &&& field != Field::Isrc ==> t.isrc == u.isrc
    &&& field != Field::Uri ==> t.spotify_id == u.spotify_id && t.is_local == u.is_local
}

/// A cell changes nothing of a track but what comes from its own field: another album artist
/// leaves the artists as they are, another URI the ISRC, and so on.
pub proof fn law_cells_stay_in_their_fields(
    header: Seq<Seq<char>>,
    row: Seq<Seq<char>>,
    other: Seq<Seq<char>>,
    field: Field,
    position: nat,
)
    requires
        differ_in(header, row, other, field),
    ensures
        agree_but_for(
            row_track(header, row, position),
            row_track(header, other, position),
            field,
        ),
{
    lemma_cell_stays(header, row, other, field, Field::Title);
    lemma_cell_stays(header, row, other, field, Field::Artist);
    lemma_cell_stays(header, row, other, field, Field::Album);
    lemma_cell_stays(header, row, other, field, Field::AlbumArtist);
    lemma_cell_stays(header, row, other, field, Field::Duration);
    lemma_cell_stays(header, row, other, field, Field::Isrc);
    lemma_cell_stays(header, row, other, field, Field::Uri);
}

proof fn lemma_cell_stays(
    header: Seq<Seq<char>>,
    row: Seq<Seq<char>>,
    other: Seq<Seq<char>>,
    changed: Field,
    read: Field,
)
    requires
        differ_in(header, row, other, changed),
    ensures
        read != changed ==> cell(row, column(header, read)) == cell(other, column(header, read)),
{
    if let Some(c) = column(header, read) {
        if column(header, changed) == Some(c) {
            law_fields_have_columns_of_their_own(header, read, changed);
        } else if 0 <= c < row.len() {
            assert(row[c] == other[c]);
        }
    }
}

/// Whether two sheets have the same rows but for the cells of a field.
pub open spec fn sheets_differ_in(sheet: SheetView, other: SheetView, field: Field) -> bool {
    &&& sheet.header == other.header
    &&& sheet.rows.len() == other.rows.len()
    &&& forall|i: int|
        0 <= i < sheet.rows.len() ==> rows_differ_in(
            sheet.header,
            #[trigger] sheet.rows[i],
            other.rows[i],
            field,
        )
}

/// Whether two rows that may be missing have the same cells but for those of a field.
pub open spec fn rows_differ_in(
    header: Seq<Seq<char>>,
    row: Option<Seq<Seq<char>>>,
    other: Option<Seq<Seq<char>>>,
    field: Field,
) -> bool {
    match (row, other) {
        (Some(r), Some(o)) => differ_in(header, r, o, field),
        (None, None) => true,
        _ => false,
    }
}

/// The cells of a field change nothing of a playlist but what comes from that field. Only titles
/// decide which rows are tracks.
pub proof fn law_columns_stay_in_their_fields(sheet: SheetView, other: SheetView, field: Field)
    requires
        sheets_differ_in(sheet, other, field),
        field != Field::Title,
    ensures
        sheet_tracks(sheet).len() == sheet_tracks(other).len(),
        forall|i: int|
            0 <= i < sheet_tracks(sheet).len() ==> agree_but_for(
                #[trigger] sheet_tracks(sheet)[i],
                sheet_tracks(other)[i],
                field,
            ),
{
    lemma_titled_pairs(sheet.header, sheet.rows, other.rows, field);
    let rows = titled_rows(sheet.header, sheet.rows);
    let others = titled_rows(sheet.header, other.rows);
    assert forall|i: int| 0 <= i < sheet_tracks(sheet).len() implies agree_but_for(
        #[trigger] sheet_tracks(sheet)[i],
        sheet_tracks(other)[i],
        field,
    ) by {
        assert(differ_in(sheet.header, rows[i], others[i], field));
        law_cells_stay_in_their_fields(sheet.header, rows[i], others[i], field, i as nat);
    }
}

proof fn lemma_titled_pairs(
    header: Seq<Seq<char>>,
    rows: Seq<Option<Seq<Seq<char>>>>,
    others: Seq<Option<Seq<Seq<char>>>>,
    field: Field,
)
    requires
        rows.len() == others.len(),
        field != Field::Title,
        forall|i: int|
            0 <= i < rows.len() ==> rows_differ_in(header, #[trigger] rows[i], others[i], field),
    ensures
        titled_rows(header, rows).len() == titled_rows(header, others).len(),
        forall|i: int|
            0 <= i < titled_rows(header, rows).len() ==> differ_in(
                header,
                #[trigger] titled_rows(header, rows)[i],
                titled_rows(header, others)[i],
                field,
            ),
    decreases rows.len(),
{
    if rows.len() > 0 {
        let last = rows.len() - 1;
        assert forall|i: int| 0 <= i < rows.drop_last().len() implies rows_differ_in(
            header,
            #[trigger] rows.drop_last()[i],
            others.drop_last()[i],
            field,
        ) by {
            assert(rows_differ_in(header, rows[i], others[i], field));
        }
        lemma_titled_pairs(header, rows.drop_last(), others.drop_last(), field);
        assert(rows_differ_in(header, rows[last], others[last], field));
        if let (Some(r), Some(o)) = (rows[last], others[last]) {
            lemma_cell_stays(header, r, o, field, Field::Title);
        }
        let before = titled_rows(header, rows.drop_last());
        assert forall|i: int| 0 <= i < titled_rows(header, rows).len() implies differ_in(
            header,
            #[trigger] titled_rows(header, rows)[i],
            titled_rows(header, others)[i],
            field,
        ) by {
            if i < before.len() {
                assert(differ_in(
                    header,
                    before[i],
                    titled_rows(header, others.drop_last())[i],
                    field,
                ));
            }
        }
    }
}

/// The artist of a track is the first of its artists, and empty exactly where it has none.
pub proof fn law_artist_is_the_first_of_the_artists(sheet: SheetView)
    ensures
        forall|i: int|
            0 <= i < sheet_tracks(sheet).len() ==> {
                let track = #[trigger] sheet_tracks(sheet)[i];
                &&& track.artists.len() > 0 ==> track.artist == track.artists[0]
                &&& track.artist.len() == 0 <==> track.artists.len() == 0
            },
{
    let rows = titled_rows(sheet.header, sheet.rows);
    assert forall|i: int| 0 <= i < sheet_tracks(sheet).len() implies {
        let track = #[trigger] sheet_tracks(sheet)[i];
        &&& track.artists.len() > 0 ==> track.artist == track.artists[0]
        &&& track.artist.len() == 0 <==> track.artists.len() == 0
    } by {
        let raw = cell(rows[i], column(sheet.header, Field::Artist));
        crate::exportify::law_artists_are_trimmed(raw);
        if artists_in(raw).len() > 0 {
            assert(artists_in(raw)[0].len() > 0);
        }
    }
}

/// Whether a cell is the one of a field in a row.
pub open spec fn is_cell_of(
    header: Seq<Seq<char>>,
    row: Seq<Seq<char>>,
    field: Field,
    text: Seq<char>,
) -> bool {
    match column(header, field) {
        Some(c) if c < row.len() => 0 <= c && text == row[c],
        _ => text == Seq::<char>::empty(),
    }
}

/// Every field of a track comes from the cell of its own column, without the white space around
/// it, and is empty where there is no such cell.
pub proof fn law_fields_come_from_their_cells(
    header: Seq<Seq<char>>,
    row: Seq<Seq<char>>,
    position: nat,
    text: Seq<char>,
)
    ensures
        row_track(header, row, position).position == position,
        is_cell_of(header, row, Field::Title, text) ==> row_track(header, row, position).title
            == trim(text),
        is_cell_of(header, row, Field::Artist, text) ==> row_track(header, row, position).artists
            == artists_in(trim(text)),
        is_cell_of(header, row, Field::Album, text) ==> row_track(header, row, position).album
            == trim(text),
        is_cell_of(header, row, Field::AlbumArtist, text) ==> row_track(
            header,
            row,
            position,
        ).album_artist == if artists_in(trim(text)).len() > 0 {
            artists_in(trim(text))[0]
        } else {
            Seq::empty()
        },
        is_cell_of(header, row, Field::Isrc, text) ==> row_track(header, row, position).isrc
            == bare_isrc(trim(text)),
        row_track(header, row, position).duration_ms == settled_millis(row_reading(header, row)),
{
    law_column_is_found_by_any_spelling(header, Field::Title);
    law_column_is_found_by_any_spelling(header, Field::Artist);
    law_column_is_found_by_any_spelling(header, Field::Album);
    law_column_is_found_by_any_spelling(header, Field::AlbumArtist);
    law_column_is_found_by_any_spelling(header, Field::Isrc);
}

/// The URI of a track on Spotify gives its identifier, one of a local file says that it is local,
/// and no other URI gives either.
pub proof fn law_uri_gives_the_identifier(
    header: Seq<Seq<char>>,
    row: Seq<Seq<char>>,
    position: nat,
    text: Seq<char>,
    id: Seq<char>,
)
    requires
        is_cell_of(header, row, Field::Uri, text),
    ensures
        trim(text) == "spotify:track:"@ + id ==> {
            &&& row_track(header, row, position).spotify_id == id
            &&& !row_track(header, row, position).is_local
        },
        trim(text) == "spotify:local:"@ + id ==> {
            &&& row_track(header, row, position).spotify_id.len() == 0
            &&& row_track(header, row, position).is_local
        },
        row_track(header, row, position).spotify_id.len() > 0 ==> trim(text) == "spotify:track:"@
            + row_track(header, row, position).spotify_id,
        row_track(header, row, position).is_local ==> begins_with(trim(text), "spotify:local:"@),
{
    law_column_is_found_by_any_spelling(header, Field::Uri);
    reveal_strlit("spotify:track:");
    reveal_strlit("spotify:local:");
    let uri = trim(text);
    let t = "spotify:track:"@;
    let l = "spotify:local:"@;
    assert(cell(row, column(header, Field::Uri)) == uri);
    if uri == t + id {
        assert(uri.subrange(0, t.len() as int) =~= t);
        assert(uri.skip(t.len() as int) =~= id);
        if begins_with(uri, l) {
            assert(uri.subrange(0, l.len() as int)[8] == 't');
        }
    }
    if uri == l + id {
        assert(uri.subrange(0, l.len() as int) =~= l);
        if begins_with(uri, t) {
            assert(uri.subrange(0, t.len() as int)[8] == 'l');
        }
    }
    if let Some(rest) = behind(uri, t) {
        assert(uri =~= t + rest);
    }
}

/// The tracks of a sheet are its rows with a title, all of them and in order.
pub proof fn law_every_titled_row_is_a_track(
    header: Seq<Seq<char>>,
    rows: Seq<Option<Seq<Seq<char>>>>,
)
    ensures
        titled_rows(header, rows) == rows.filter(
            |r: Option<Seq<Seq<char>>>|
                r is Some && cell(r->Some_0, column(header, Field::Title)).len() > 0,
        ).map_values(|r: Option<Seq<Seq<char>>>| r->Some_0),
    decreases rows.len(),
{
    let keeps = |r: Option<Seq<Seq<char>>>|
        r is Some && cell(r->Some_0, column(header, Field::Title)).len() > 0;
    let bare = |r: Option<Seq<Seq<char>>>| r->Some_0;
    reveal(Seq::filter);
    if rows.len() > 0 {
        let front = rows.drop_last();
        law_every_titled_row_is_a_track(header, front);
        assert(rows =~= front.push(rows.last()));
        lemma_filter_push(front, rows.last(), keeps);
        if keeps(rows.last()) {
            assert(front.filter(keeps).push(rows.last()).map_values(bare) =~= front.filter(
                keeps,
            ).map_values(bare).push(rows.last()->Some_0));
        }
    }
    assert(titled_rows(header, rows) =~= rows.filter(keeps).map_values(bare));
}

/// Each row with a title is the track of its own place.
pub proof fn law_tracks_are_their_rows(sheet: SheetView)
    ensures
        sheet_tracks(sheet).len() == titled_rows(sheet.header, sheet.rows).len(),
        forall|i: int|
            0 <= i < sheet_tracks(sheet).len() ==> #[trigger] sheet_tracks(sheet)[i] == row_track(
                sheet.header,
                titled_rows(sheet.header, sheet.rows)[i],
                i as nat,
            ),
{
}

} // verus!
