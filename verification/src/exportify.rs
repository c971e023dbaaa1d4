//! Reading the CSV files that exportify.net produces.
//!
//! "Export All" hands out a zip with one CSV per playlist, named after the playlist. Loose CSVs
//! and a directory of them work too; `sources` finds them.

use vstd::prelude::*;

use crate::model::{bare_isrc, norm_isrc, track_views, Playlist, PlaylistView, Track, TrackView};
use crate::text::{
    alphanumerics, begins_with, behind, contains_char, contains_part, is_digit, join,
    keep_alphanumeric, lemma_filter_all, lemma_filter_push, lemma_filter_subset, lemma_split_join,
    lemma_take_next, lemma_trim, lowercase, nonempty, occurs_in, replace_char, replaced, same_text,
    split, split_text, starts_with, strip_prefix, to_chars, to_lower, trim, trim_text, views,
    without_empty, Separator,
};

verus! {

/// A column that the importer reads.
#[derive(Clone, Copy, PartialEq, Eq, Debug)]
pub enum Field {
    Title,
    Artist,
    Album,
    AlbumArtist,
    Duration,
    Isrc,
    Uri,
}

/// The views of several string slices.
spec fn slice_views(texts: Seq<&str>) -> Seq<Seq<char>> {
    texts.map_values(|t: &str| t@)
}

impl Field {
    /// The normalised headers that a column goes by, in order of preference.
    pub open spec fn headers(self) -> Seq<Seq<char>> {
        match self {
            Field::Title => seq!["trackname"@, "name"@, "title"@],
            Field::Artist => seq!["artistnames"@, "artistname"@, "artists"@, "artist"@],
            Field::Album => seq!["albumname"@, "album"@],
            Field::AlbumArtist => seq![
                "albumartistnames"@,
                "albumartistname"@,
                "albumartist"@,
            ],
            Field::Duration => seq![
                "trackdurationms"@,
                "durationms"@,
                "duration"@,
                "tracklength"@,
            ],
            Field::Isrc => seq!["isrc"@],
            Field::Uri => seq!["trackuri"@, "uri"@, "trackid"@, "spotifyid"@],
        }
    }

    /// Exportify's own headers are "Track Name", "Artist Name(s)", "ISRC" and so on, but the
    /// forks drift. Matching on a normalised header means any of these spellings lands in the
    /// right slot.
    fn spellings(self) -> (r: Vec<&'static str>)
        ensures
            slice_views(r@) == self.headers(),
    {
        let r: Vec<&'static str> = match self {
            Field::Title => vec!["trackname", "name", "title"],
            Field::Artist => vec!["artistnames", "artistname", "artists", "artist"],
            Field::Album => vec!["albumname", "album"],
            Field::AlbumArtist => vec!["albumartistnames", "albumartistname", "albumartist"],
            Field::Duration => vec!["trackdurationms", "durationms", "duration", "tracklength"],
            Field::Isrc => vec!["isrc"],
            Field::Uri => vec!["trackuri", "uri", "trackid", "spotifyid"],
        };
        assert(slice_views(r@) =~= self.headers());
        r
    }
}

/// The letters and digits of a header, in lower case.
pub open spec fn bare_header(text: Seq<char>) -> Seq<char> {
    to_lower(alphanumerics(text))
}

/// Normalises a header for comparison.
pub fn norm_header(text: &str) -> (r: String)
    ensures
        r@ == bare_header(text@),
{
    let kept = keep_alphanumeric(text);
    lowercase(kept.as_str())
}

/// The last column whose normalised header is `name`.
pub open spec fn last_named(header: Seq<Seq<char>>, name: Seq<char>) -> Option<int>
    decreases header.len(),
{
    if header.len() == 0 {
        None
    } else if bare_header(header.last()) == name {
        Some(header.len() - 1)
    } else {
        last_named(header.drop_last(), name)
    }
}

/// The last column that goes by the first of the names that any column goes by.
pub open spec fn first_found(header: Seq<Seq<char>>, names: Seq<Seq<char>>) -> Option<int>
    decreases names.len(),
{
    if names.len() == 0 {
        None
    } else if last_named(header, names[0]) is Some {
        last_named(header, names[0])
    } else {
        first_found(header, names.skip(1))
    }
}

/// The column of a field.
pub open spec fn column(header: Seq<Seq<char>>, field: Field) -> Option<int> {
    first_found(header, field.headers())
}

/// A position that may be missing.
pub open spec fn place(at: Option<usize>) -> Option<int> {
    match at {
        Some(i) => Some(i as int),
        None => None,
    }
}

fn find_last(names: &Vec<String>, wanted: &str, Ghost(header): Ghost<Seq<Seq<char>>>) -> (r: Option<
    usize,
>)
    requires
        names@.len() == header.len(),
        forall|i: int| 0 <= i < header.len() ==> (#[trigger] names@[i])@ == bare_header(header[i]),
    ensures
        place(r) == last_named(header, wanted@),
{
    let mut i: usize = names.len();
    assert(header.take(i as int) =~= header);
    while i > 0
        invariant
            i <= names@.len(),
            names@.len() == header.len(),
            forall|i: int|
                0 <= i < header.len() ==> (#[trigger] names@[i])@ == bare_header(header[i]),
            last_named(header, wanted@) == last_named(header.take(i as int), wanted@),
        decreases i,
    {
        i = i - 1;
        assert(header.take(i + 1).drop_last() =~= header.take(i as int));
        assert(header.take(i + 1).last() == header[i as int]);
        if same_text(names[i].as_str(), wanted) {
            return Some(i);
        }
    }
    None
}

/// Where the fields stand in a row.
#[derive(Clone, Copy, Debug)]
pub struct Columns {
    pub title: Option<usize>,
    pub artist: Option<usize>,
    pub album: Option<usize>,
    pub album_artist: Option<usize>,
    pub duration: Option<usize>,
    pub isrc: Option<usize>,
    pub uri: Option<usize>,
}

impl Columns {
    /// Where a field stands in a row.
    pub open spec fn of(self, field: Field) -> Option<int> {
        match field {
            Field::Title => place(self.title),
            Field::Artist => place(self.artist),
            Field::Album => place(self.album),
            Field::AlbumArtist => place(self.album_artist),
            Field::Duration => place(self.duration),
            Field::Isrc => place(self.isrc),
            Field::Uri => place(self.uri),
        }
    }
}

fn find_column(names: &Vec<String>, field: Field, Ghost(header): Ghost<Seq<Seq<char>>>) -> (r:
    Option<usize>)
    requires
        names@.len() == header.len(),
        forall|i: int| 0 <= i < header.len() ==> (#[trigger] names@[i])@ == bare_header(header[i]),
    ensures
        place(r) == column(header, field),
{
    let wanted = field.spellings();
    let ghost all = field.headers();
    assert(all.skip(0) =~= all);
    for k in 0..wanted.len()
        invariant
            names@.len() == header.len(),
            forall|i: int|
                0 <= i < header.len() ==> (#[trigger] names@[i])@ == bare_header(header[i]),
            slice_views(wanted@) == all,
            column(header, field) == first_found(header, all.skip(k as int)),
    {
        assert(all[k as int] == wanted@[k as int]@);
        assert(all.skip(k as int).skip(1) =~= all.skip(k + 1));
        let found = find_last(names, wanted[k], Ghost(header));
        if found.is_some() {
            return found;
        }
    }
    None
}

/// Finds the columns in a header row.
pub fn resolve_columns(header: &Vec<String>) -> (r: Columns)
    ensures
        forall|f: Field| #[trigger] r.of(f) == column(views(header@), f),
{
    let mut names: Vec<String> = Vec::new();
    for i in 0..header.len()
        invariant
            names@.len() == i,
            forall|j: int|
                0 <= j < i ==> (#[trigger] names@[j])@ == bare_header(views(header@)[j]),
    {
        names.push(norm_header(header[i].as_str()));
    }
    let ghost all = views(header@);
    Columns {
        title: find_column(&names, Field::Title, Ghost(all)),
        artist: find_column(&names, Field::Artist, Ghost(all)),
        album: find_column(&names, Field::Album, Ghost(all)),
        album_artist: find_column(&names, Field::AlbumArtist, Ghost(all)),
        duration: find_column(&names, Field::Duration, Ghost(all)),
        isrc: find_column(&names, Field::Isrc, Ghost(all)),
        uri: find_column(&names, Field::Uri, Ghost(all)),
    }
}

/// The value of a text of decimal digits.
pub open spec fn number(s: Seq<char>) -> nat
    decreases s.len(),
{
    if s.len() == 0 {
        0
    } else {
        number(s.drop_last()) * 10 + (s.last() as nat - 48) as nat
    }
}

/// The whole numbers below this one are exact in binary floating point.
pub const EXACT: u64 = 9_007_199_254_740_992;

/// A whole number in decimal digits that is exact in binary floating point.
pub open spec fn is_whole(s: Seq<char>) -> bool {
    &&& s.len() > 0
    &&& forall|i: int| 0 <= i < s.len() ==> is_digit(#[trigger] s[i])
    &&& number(s) < EXACT
}

/// A number does not get smaller by digits behind it.
proof fn lemma_number_grows(s: Seq<char>, i: int)
    requires
        0 <= i <= s.len(),
    ensures
        number(s.take(i)) <= number(s),
    decreases s.len() - i,
{
    if i < s.len() {
        assert(s.take(i + 1).drop_last() =~= s.take(i));
        lemma_number_grows(s, i + 1);
    } else {
        assert(s.take(i) =~= s);
    }
}

/// Reads a whole number that is exact in binary floating point.
fn whole_number(text: &str) -> (r: Option<u64>)
    ensures
        match r {
            Some(n) => is_whole(text@) && n == number(text@) && n < EXACT,
            None => !is_whole(text@),
        },
{
    let chars = to_chars(text);
    if chars.len() == 0 {
        return None;
    }
    let mut n: u64 = 0;
    for i in 0..chars.len()
        invariant
            chars@ == text@,
            0 < chars@.len(),
            forall|j: int| 0 <= j < i ==> is_digit(#[trigger] chars@[j]),
            n == number(chars@.take(i as int)),
            n < EXACT,
    {
        let c = chars[i];
        if c < '0' || c > '9' {
            return None;
        }
        proof {
            assert(chars@.take(i + 1).drop_last() =~= chars@.take(i as int));
            lemma_number_grows(chars@, i + 1);
        }
        n = n * 10 + (c as u64 - 48);
        if n >= EXACT {
            return None;
        }
    }
    assert(chars@.take(chars@.len() as int) =~= chars@);
    Some(n)
}

/// Hours, minutes and seconds, the largest unit first, in seconds.
pub open spec fn clock_seconds(parts: Seq<Seq<char>>) -> nat
    decreases parts.len(),
{
    if parts.len() == 0 {
        0
    } else {
        clock_seconds(parts.drop_last()) * 60 + number(parts.last())
    }
}

/// The most seconds whose milliseconds are exact in binary floating point.
pub const MAX_EXACT_SECONDS: u64 = 9_007_199_254_740;

/// Whole numbers that add up to no more than [`MAX_EXACT_SECONDS`].
pub open spec fn is_exact_clock(parts: Seq<Seq<char>>) -> bool {
    &&& forall|i: int| 0 <= i < parts.len() ==> is_whole(#[trigger] parts[i])
    &&& clock_seconds(parts) <= MAX_EXACT_SECONDS
}

/// What the duration column of a track says.
#[derive(Debug)]
pub enum Reading {
    /// So many milliseconds.
    Millis(u64),
    /// Texts between colons that are not all whole numbers or do not add up to an exact time. As
    /// numbers they are of units that are worth sixty of the next one; the last ones are seconds.
    Clock(Vec<String>),
    /// A text that is not a whole number below [`EXACT`]. As a number it is of milliseconds where
    /// the header says so or where it is at least [`MIN_MILLIS`], else of seconds.
    Decimal { text: String, header_says_ms: bool },
}

/// What a [`Reading`] says.
#[verifier::ext_equal]
pub enum ReadingView {
    Millis(nat),
    Clock(Seq<Seq<char>>),
    Decimal { text: Seq<char>, header_says_ms: bool },
}

impl View for Reading {
    type V = ReadingView;

    open spec fn view(&self) -> ReadingView {
        match self {
            Reading::Millis(n) => ReadingView::Millis(*n as nat),
            Reading::Clock(parts) => ReadingView::Clock(views(parts@)),
            Reading::Decimal { text, header_says_ms } => ReadingView::Decimal {
                text: text@,
                header_says_ms: *header_says_ms,
            },
        }
    }
}

/// No track is shorter than ten seconds: a smaller number is one of seconds.
pub const MIN_MILLIS: u64 = 10_000;

/// Whether a header names milliseconds.
pub open spec fn says_ms(header: Seq<char>) -> bool {
    occurs_in(bare_header(header), "ms"@)
}

/// What [`duration_ms`] makes of a duration and its header.
pub open spec fn reading(raw: Seq<char>, header: Seq<char>) -> ReadingView {
    let text = trim(raw);
    if text.len() == 0 {
        ReadingView::Millis(0)
    } else if text.contains(':') {
        let parts = split(text, Separator::Char(':'));
        if is_exact_clock(parts) {
            ReadingView::Millis(clock_seconds(parts) * 1000)
        } else {
            ReadingView::Clock(parts)
        }
    } else if is_whole(text) {
        if !says_ms(header) && number(text) < MIN_MILLIS {
            ReadingView::Millis(number(text) * 1000)
        } else {
            ReadingView::Millis(number(text))
        }
    } else {
        ReadingView::Decimal { text, header_says_ms: says_ms(header) }
    }
}

/// Adds up the parts of a clock time where they are whole numbers and the sum is exact.
fn exact_clock(parts: &Vec<String>) -> (r: Option<u64>)
    ensures
        match r {
            Some(n) => is_exact_clock(views(parts@)) && n == clock_seconds(views(parts@)),
            None => !is_exact_clock(views(parts@)),
        },
{
    let ghost all = views(parts@);
    let mut sum: Option<u64> = Some(0);
    for i in 0..parts.len()
        invariant
            all == views(parts@),
            match sum {
                Some(n) => is_exact_clock(all.take(i as int)) && n == clock_seconds(
                    all.take(i as int),
                ),
                None => !is_exact_clock(all.take(i as int)),
            },
    {
        proof {
            lemma_take_next(all, i as int);
            let more = all.take(i + 1);
            assert(more.drop_last() =~= all.take(i as int));
            assert(more.last() == parts@[i as int]@);
            if is_exact_clock(more) {
                assert forall|j: int| 0 <= j < i implies is_whole(
                    #[trigger] all.take(i as int)[j],
                ) by {
                    assert(more[j] == all.take(i as int)[j]);
                }
                assert(is_whole(more[i as int]));
            }
        }
        sum = match (sum, whole_number(parts[i].as_str())) {
            (Some(n), Some(part)) => {
                let next = n * 60 + part;
                if next <= MAX_EXACT_SECONDS {
                    Some(next)
                } else {
                    None
                }
            },
            _ => None,
        };
    }
    assert(all.take(parts@.len() as int) =~= all);
    sum
}

/// Reads a duration. Exportify's column is explicitly "(ms)"; forks sometimes emit seconds or
/// mm:ss instead.
pub fn duration_ms(raw: &str, header: &str) -> (r: Reading)
    ensures
        r@ == reading(raw@, header@),
{
    let text = trim_text(raw);
    if text.as_str().is_empty() {
        return Reading::Millis(0);
    }
    if contains_char(text.as_str(), ':') {
        let parts = split_text(text.as_str(), Separator::Char(':'));
        return match exact_clock(&parts) {
            Some(seconds) => Reading::Millis(seconds * 1000),
            None => Reading::Clock(parts),
        };
    }
    let name = norm_header(header);
    let header_says_ms = contains_part(name.as_str(), "ms");
    match whole_number(text.as_str()) {
        Some(n) => {
            if !header_says_ms && n < MIN_MILLIS {
                Reading::Millis(n * 1000)
            } else {
                Reading::Millis(n)
            }
        },
        None => Reading::Decimal { text, header_says_ms },
    }
}

/// What separates the artists of a track.
pub open spec fn artist_separator(raw: Seq<char>) -> Separator {
    if raw.contains(';') {
        Separator::Char(';')
    } else {
        Separator::Char(',')
    }
}

/// Each text without the white space around it.
pub open spec fn trimmed(texts: Seq<Seq<char>>) -> Seq<Seq<char>> {
    texts.map_values(|t: Seq<char>| trim(t))
}

/// The artists that a text lists.
pub open spec fn artists_in(raw: Seq<char>) -> Seq<Seq<char>> {
    trimmed(split(raw, artist_separator(raw))).filter(nonempty())
}

/// Exportify joins multiple artists with ';' ("Big Pun;Fat Joe"). Older builds and forks use ", "
/// instead, so this falls back to the comma only when there is no semicolon: splitting on it
/// unconditionally cuts names like "Tyler, The Creator" in half.
pub fn split_artists(raw: &str) -> (r: Vec<String>)
    ensures
        views(r@) == artists_in(raw@),
{
    let sep = if contains_char(raw, ';') {
        Separator::Char(';')
    } else {
        Separator::Char(',')
    };
    let parts = split_text(raw, sep);
    let ghost all = views(parts@);
    let mut names: Vec<String> = Vec::new();
    for i in 0..parts.len()
        invariant
            all == views(parts@),
            views(names@) == trimmed(all.take(i as int)),
    {
        let name = trim_text(parts[i].as_str());
        let ghost before = views(names@);
        names.push(name);
        proof {
            lemma_take_next(all, i as int);
            assert(views(names@) =~= before.push(trim(all[i as int])));
            assert(trimmed(all.take(i as int).push(all[i as int])) =~= trimmed(
                all.take(i as int),
            ).push(trim(all[i as int])));
        }
    }
    assert(all.take(parts@.len() as int) =~= all);
    without_empty(&names)
}

/// The error type of the `csv` crate.
#[verifier::external_type_specification]
#[verifier::external_body]
pub struct ExCsvError(csv::Error);

/// The rows of a CSV file. A row that could not be read is missing.
#[derive(Debug)]
pub struct Sheet {
    pub header: Vec<String>,
    pub rows: Vec<Option<Vec<String>>>,
}

/// What a row holds.
pub open spec fn row_view(row: Option<Vec<String>>) -> Option<Seq<Seq<char>>> {
    match row {
        Some(cells) => Some(views(cells@)),
        None => None,
    }
}

/// What a [`Sheet`] holds.
#[verifier::ext_equal]
pub struct SheetView {
    pub header: Seq<Seq<char>>,
    pub rows: Seq<Option<Seq<Seq<char>>>>,
}

impl View for Sheet {
    type V = SheetView;

    open spec fn view(&self) -> SheetView {
        SheetView {
            header: views(self.header@),
            rows: self.rows@.map_values(|r: Option<Vec<String>>| row_view(r)),
        }
    }
}

/// What the `csv` crate reads from a text, with rows of unequal length allowed.
pub uninterp spec fn csv_sheet(text: Seq<char>) -> SheetView;

/// `csv::Reader` over a text, with `ReaderBuilder::flexible`: `headers`, then `records`.
///
/// No row is refused, nor is the header: reading from memory does not fail, rows need not be of
/// equal length, and only whole characters are taken out of the text, so that every cell is text
/// again.
#[verifier::external_body]
fn read_csv(text: &str) -> (r: Result<Sheet, csv::Error>)
    ensures
        match r {
            Ok(sheet) => {
                &&& sheet@ == csv_sheet(text@)
                &&& forall|i: int| 0 <= i < sheet@.rows.len() ==> #[trigger] sheet@.rows[i] is Some
            },
            Err(_) => false,
        },
{
    let mut reader = csv::ReaderBuilder::new().flexible(true).from_reader(text.as_bytes());
    let header = reader.headers()?.iter().map(|h| h.to_string()).collect();
    let rows = reader.records()
        .map(|row| row.ok().map(|cells| cells.iter().map(|c| c.to_string()).collect()))
        .collect();
    Ok(Sheet { header, rows })
}

/// A text without the byte order mark that Exportify writes.
pub open spec fn without_bom(text: Seq<char>) -> Seq<char> {
    match behind(text, seq!['\u{feff}']) {
        Some(rest) => rest,
        None => text,
    }
}

/// What a row holds in a column, without the white space around it; nothing where it is too short
/// or where there is no such column.
pub open spec fn cell(row: Seq<Seq<char>>, at: Option<int>) -> Seq<char> {
    trim(raw_cell(row, at))
}

/// What a row holds in a column; nothing where it is too short or where there is no such column.
pub open spec fn raw_cell(row: Seq<Seq<char>>, at: Option<int>) -> Seq<char> {
    match at {
        Some(i) if 0 <= i < row.len() => row[i],
        _ => Seq::empty(),
    }
}

/// The first of several texts; the empty one where there is none.
pub open spec fn first_or_empty(texts: Seq<Seq<char>>) -> Seq<char> {
    if texts.len() > 0 {
        texts[0]
    } else {
        Seq::empty()
    }
}

/// What the duration cell of a row says.
pub open spec fn row_reading(header: Seq<Seq<char>>, row: Seq<Seq<char>>) -> ReadingView {
    reading(
        cell(row, column(header, Field::Duration)),
        raw_cell(header, column(header, Field::Duration)),
    )
}

/// The milliseconds of a reading; none where it has to be measured.
pub open spec fn settled_millis(r: ReadingView) -> nat {
    match r {
        ReadingView::Millis(n) => n,
        _ => 0,
    }
}

/// The track that a row describes.
pub open spec fn row_track(
    header: Seq<Seq<char>>,
    row: Seq<Seq<char>>,
    position: nat,
) -> TrackView {
    let artists = artists_in(cell(row, column(header, Field::Artist)));
    let uri = cell(row, column(header, Field::Uri));
    TrackView {
        position,
        title: cell(row, column(header, Field::Title)),
        artist: first_or_empty(artists),
        artists,
        album: cell(row, column(header, Field::Album)),
        album_artist: first_or_empty(artists_in(cell(row, column(header, Field::AlbumArtist)))),
        duration_ms: settled_millis(row_reading(header, row)),
        isrc: bare_isrc(cell(row, column(header, Field::Isrc))),
        spotify_id: match behind(uri, "spotify:track:"@) {
            Some(id) => id,
            None => Seq::empty(),
        },
        is_local: begins_with(uri, "spotify:local:"@),
    }
}

/// The rows that were read and have a title.
pub open spec fn titled_rows(
    header: Seq<Seq<char>>,
    rows: Seq<Option<Seq<Seq<char>>>>,
) -> Seq<Seq<Seq<char>>>
    decreases rows.len(),
{
    if rows.len() == 0 {
        Seq::empty()
    } else {
        let before = titled_rows(header, rows.drop_last());
        match rows.last() {
            Some(row) if cell(row, column(header, Field::Title)).len() > 0 => before.push(row),
            _ => before,
        }
    }
}

/// The tracks of a sheet: one for each row with a title, numbered in order.
pub open spec fn sheet_tracks(sheet: SheetView) -> Seq<TrackView> {
    titled_rows(sheet.header, sheet.rows).map(
        |i: int, row: Seq<Seq<char>>| row_track(sheet.header, row, i as nat),
    )
}

/// What the duration cells of a sheet say, track by track.
pub open spec fn sheet_readings(sheet: SheetView) -> Seq<ReadingView> {
    titled_rows(sheet.header, sheet.rows).map_values(
        |row: Seq<Seq<char>>| row_reading(sheet.header, row),
    )
}

/// The rows that could not be read.
pub open spec fn bad_rows(rows: Seq<Option<Seq<Seq<char>>>>) -> nat
    decreases rows.len(),
{
    if rows.len() == 0 {
        0
    } else {
        bad_rows(rows.drop_last()) + if rows.last() is None {
            1nat
        } else {
            0
        }
    }
}

/// The tracks that have an ISRC.
pub open spec fn with_isrc(tracks: Seq<TrackView>) -> nat
    decreases tracks.len(),
{
    if tracks.len() == 0 {
        0
    } else {
        with_isrc(tracks.drop_last()) + if tracks.last().isrc.len() > 0 {
            1nat
        } else {
            0
        }
    }
}

/// A playlist that was read, with what its duration cells say.
#[derive(Debug)]
pub struct Parsed {
    pub playlist: Playlist,
    /// Track by track. The duration of a track whose reading is not [`Reading::Millis`] is yet to
    /// be measured, and zero until then.
    pub readings: Vec<Reading>,
    /// Rows that could not be read.
    pub bad_rows: usize,
    /// Tracks that have an ISRC.
    pub with_isrc: usize,
}

/// What several readings say.
pub open spec fn reading_views(readings: Seq<Reading>) -> Seq<ReadingView> {
    readings.map_values(|r: Reading| r@)
}

/// The name of a playlist from that of its file. Exportify sanitises spaces to underscores.
pub open spec fn playlist_name(name: Seq<char>) -> Seq<char> {
    trim(replaced(name, '_', ' '))
}

impl Parsed {
    /// What a sheet gives under a file name.
    pub open spec fn is_of(self, name: Seq<char>, sheet: SheetView) -> bool {
        &&& self.playlist@ == (PlaylistView {
            name: playlist_name(name),
            spotify_id: Seq::empty(),
            owner: Seq::empty(),
            mine: true,
            tracks: sheet_tracks(sheet),
        })
        &&& reading_views(self.readings@) == sheet_readings(sheet)
        &&& self.bad_rows == bad_rows(sheet.rows)
        &&& self.with_isrc == with_isrc(sheet_tracks(sheet))
    }
}

/// What came of a sheet.
#[derive(Debug)]
pub enum SheetOutcome {
    /// It is a playlist.
    Playlist(Parsed),
    /// No column is recognisable as that of the titles; these are the first headers.
    NoTitle(Vec<String>),
}

/// How many headers of a sheet without titles are shown.
pub const SAMPLE: usize = 6;

/// The header with no more than [`SAMPLE`] columns.
pub open spec fn sample_of(header: Seq<Seq<char>>) -> Seq<Seq<char>> {
    if header.len() <= SAMPLE {
        header
    } else {
        header.take(SAMPLE as int)
    }
}

impl SheetOutcome {
    /// What a sheet gives under a file name.
    pub open spec fn is_of(self, name: Seq<char>, sheet: SheetView) -> bool {
        match self {
            SheetOutcome::Playlist(parsed) => {
                &&& column(sheet.header, Field::Title) is Some
                &&& parsed.is_of(name, sheet)
            },
            SheetOutcome::NoTitle(sample) => {
                &&& column(sheet.header, Field::Title) is None
                &&& views(sample@) == sample_of(sheet.header)
            },
        }
    }
}

fn get<'a>(row: &'a Vec<String>, at: Option<usize>) -> (r: &'a str)
    ensures
        r@ == raw_cell(views(row@), place(at)),
{
    match at {
        Some(i) if i < row.len() => row[i].as_str(),
        _ => {
            proof {
                reveal_strlit("");
            }
            assert(""@ =~= Seq::<char>::empty());
            ""
        },
    }
}

fn get_trimmed(row: &Vec<String>, at: Option<usize>) -> (r: String)
    ensures
        r@ == cell(views(row@), place(at)),
{
    trim_text(get(row, at))
}

fn first_of(texts: &Vec<String>) -> (r: String)
    ensures
        r@ == first_or_empty(views(texts@)),
{
    if texts.len() > 0 {
        texts[0].clone()
    } else {
        String::new()
    }
}

/// The track that a row describes, and what its duration cell says.
fn read_row(row: &Vec<String>, header: &Vec<String>, columns: &Columns, position: usize) -> (r: (
    Track,
    Reading,
))
    requires
        forall|f: Field| #[trigger] columns.of(f) == column(views(header@), f),
    ensures
        r.0@ == row_track(views(header@), views(row@), position as nat),
        r.1@ == row_reading(views(header@), views(row@)),
{
    assert(columns.of(Field::Title) == column(views(header@), Field::Title));
    assert(columns.of(Field::Artist) == column(views(header@), Field::Artist));
    assert(columns.of(Field::Album) == column(views(header@), Field::Album));
    assert(columns.of(Field::AlbumArtist) == column(views(header@), Field::AlbumArtist));
    assert(columns.of(Field::Duration) == column(views(header@), Field::Duration));
    assert(columns.of(Field::Isrc) == column(views(header@), Field::Isrc));
    assert(columns.of(Field::Uri) == column(views(header@), Field::Uri));
    let artists = split_artists(get_trimmed(row, columns.artist).as_str());
    let album_artists = split_artists(get_trimmed(row, columns.album_artist).as_str());
    let uri = get_trimmed(row, columns.uri);
    let reading = duration_ms(
        get_trimmed(row, columns.duration).as_str(),
        get(header, columns.duration),
    );
    let millis = match &reading {
        Reading::Millis(n) => *n,
        _ => 0,
    };
    let track = Track {
        position,
        title: get_trimmed(row, columns.title),
        artist: first_of(&artists),
        artists,
        album: get_trimmed(row, columns.album),
        album_artist: first_of(&album_artists),
        duration_ms: millis,
        isrc: norm_isrc(get_trimmed(row, columns.isrc).as_str()),
        spotify_id: match strip_prefix(uri.as_str(), "spotify:track:") {
            Some(id) => String::from_str(id),
            None => String::new(),
        },
        is_local: starts_with(uri.as_str(), "spotify:local:"),
    };
    (track, reading)
}

/// Makes a playlist of a sheet.
pub fn parse_sheet(name: &str, sheet: &Sheet) -> (r: SheetOutcome)
    ensures
        r.is_of(name@, sheet@),
{
    let columns = resolve_columns(&sheet.header);
    let ghost header = sheet@.header;
    let ghost rows = sheet@.rows;
    assert(columns.of(Field::Title) == column(header, Field::Title));
    if columns.title.is_none() {
        let mut sample: Vec<String> = Vec::new();
        while sample.len() < sheet.header.len() && sample.len() < SAMPLE
            invariant
                header == views(sheet.header@),
                sample@.len() <= header.len(),
                sample@.len() <= SAMPLE,
                views(sample@) == header.take(sample@.len() as int),
            decreases SAMPLE - sample@.len(),
        {
            let ghost before = views(sample@);
            sample.push(sheet.header[sample.len()].clone());
            proof {
                lemma_take_next(header, before.len() as int);
                assert(views(sample@) =~= before.push(header[before.len() as int]));
            }
        }
        assert(header.take(header.len() as int) =~= header);
        return SheetOutcome::NoTitle(sample);
    }
    let mut tracks: Vec<Track> = Vec::new();
    let mut readings: Vec<Reading> = Vec::new();
    let mut bad: usize = 0;
    let mut isrcs: usize = 0;
    for i in 0..sheet.rows.len()
        invariant
            header == views(sheet.header@),
            rows == sheet@.rows,
            forall|f: Field| #[trigger] columns.of(f) == column(header, f),
            track_views(tracks@) == sheet_tracks(
                (SheetView { header, rows: rows.take(i as int) }),
            ),
            reading_views(readings@) == sheet_readings(
                (SheetView { header, rows: rows.take(i as int) }),
            ),
            bad == bad_rows(rows.take(i as int)),
            isrcs == with_isrc(track_views(tracks@)),
            bad <= i,
            isrcs <= i,
            tracks@.len() <= i,
    {
        let ghost sofar = rows.take(i as int);
        let ghost more = rows.take(i + 1);
        let ghost titled = titled_rows(header, sofar);
        proof {
            assert(more.drop_last() =~= sofar);
            assert(more.last() == row_view(sheet.rows@[i as int]));
            assert(columns.of(Field::Title) == column(header, Field::Title));
        }
        match &sheet.rows[i] {
            None => {
                bad = bad + 1;
            },
            Some(row) => {
                let title = get_trimmed(row, columns.title);
                if !title.as_str().is_empty() {
                    let (track, reading) = read_row(row, &sheet.header, &columns, tracks.len());
                    let ghost before = track_views(tracks@);
                    let ghost earlier = reading_views(readings@);
                    if !track.isrc.as_str().is_empty() {
                        isrcs = isrcs + 1;
                    }
                    let ghost t = track@;
                    let ghost d = reading@;
                    tracks.push(track);
                    readings.push(reading);
                    proof {
                        assert(titled_rows(header, more) == titled.push(views(row@)));
                        assert(track_views(tracks@) =~= before.push(t));
                        assert(before.push(t).drop_last() =~= before);
                        assert(before.len() == titled.len());
                        assert(reading_views(readings@) =~= earlier.push(d));
                        assert(sheet_tracks((SheetView { header, rows: more })) =~= before.push(t));
                        assert(sheet_readings((SheetView { header, rows: more }))
                            =~= earlier.push(d));
                    }
                }
            },
        }
    }
    proof {
        assert(rows.take(sheet.rows@.len() as int) =~= rows);
    }
    let spaced = replace_char(name, '_', ' ');
    SheetOutcome::Playlist(
        Parsed {
            playlist: Playlist {
                name: trim_text(spaced.as_str()),
                spotify_id: String::new(),
                owner: String::new(),
                mine: true,
                tracks,
            },
            readings,
            bad_rows: bad,
            with_isrc: isrcs,
        },
    )
}

/// Why a file gives no sheet.
#[derive(Clone, Copy, PartialEq, Eq, Debug)]
pub enum ParseError {
    /// The header row could not be read. That of a text always can.
    Header,
}

/// Reads the rows of a CSV file.
pub fn read_sheet(text: &str) -> (r: Result<Sheet, ParseError>)
    ensures
        r matches Ok(sheet) && sheet@ == csv_sheet(without_bom(text@)) && bad_rows(sheet@.rows)
            == 0,
{
    proof {
        reveal_strlit("\u{feff}");
        assert("\u{feff}"@ =~= seq!['\u{feff}']);
    }
    // Exportify writes a UTF-8 byte order mark, which is no part of the first header.
    let bare = match strip_prefix(text, "\u{feff}") {
        Some(rest) => rest,
        None => text,
    };
    match read_csv(bare) {
        Ok(sheet) => {
            proof {
                lemma_no_bad_rows(sheet@.rows);
            }
            Ok(sheet)
        },
        Err(_) => Err(ParseError::Header),
    }
}

proof fn lemma_no_bad_rows(rows: Seq<Option<Seq<Seq<char>>>>)
    requires
        forall|i: int| 0 <= i < rows.len() ==> #[trigger] rows[i] is Some,
    ensures
        bad_rows(rows) == 0,
    decreases rows.len(),
{
    if rows.len() > 0 {
        assert(rows[rows.len() - 1] is Some);
        assert forall|i: int| 0 <= i < rows.drop_last().len() implies #[trigger] rows.drop_last()[i]
            is Some by {
            assert(rows[i] is Some);
        }
        lemma_no_bad_rows(rows.drop_last());
    }
}

/// Makes a playlist of a CSV file.
pub fn parse_csv(name: &str, text: &str) -> (r: Result<SheetOutcome, ParseError>)
    ensures
        r matches Ok(outcome) && outcome.is_of(name@, csv_sheet(without_bom(text@))) && bad_rows(
            csv_sheet(without_bom(text@)).rows,
        ) == 0,
{
    match read_sheet(text) {
        Ok(sheet) => Ok(parse_sheet(name, &sheet)),
        Err(err) => Err(err),
    }
}

/// The duration of a track: what its cell says, or what was measured where the cell leaves that
/// open.
pub open spec fn settled(reading: ReadingView, measured: nat) -> nat {
    match reading {
        ReadingView::Millis(n) => n,
        _ => measured,
    }
}

/// A track with its duration settled.
pub open spec fn settled_track(track: TrackView, reading: ReadingView, measured: nat) -> TrackView {
    TrackView { duration_ms: settled(reading, measured), ..track }
}

/// Puts the measured durations, one for each track, where the file leaves a duration open.
pub fn settle(parsed: Parsed, measured: &Vec<u64>) -> (r: Playlist)
    requires
        parsed.readings@.len() == parsed.playlist.tracks@.len(),
        measured@.len() == parsed.playlist.tracks@.len(),
    ensures
        r@ == (PlaylistView { tracks: r@.tracks, ..parsed.playlist@ }),
        r@.tracks.len() == parsed.playlist@.tracks.len(),
        forall|i: int|
            0 <= i < r@.tracks.len() ==> #[trigger] r@.tracks[i] == settled_track(
                parsed.playlist@.tracks[i],
                parsed.readings@[i]@,
                measured@[i] as nat,
            ),
{
    let mut playlist = parsed.playlist;
    let readings = parsed.readings;
    let mut tracks: Vec<Track> = Vec::new();
    std::mem::swap(&mut tracks, &mut playlist.tracks);
    let ghost given = track_views(tracks@);
    let count = tracks.len();
    for i in 0..count
        invariant
            count == given.len(),
            tracks@.len() == given.len(),
            readings@ == parsed.readings@,
            readings@.len() == given.len(),
            measured@.len() == given.len(),
            forall|j: int| i <= j < given.len() ==> #[trigger] tracks@[j]@ == given[j],
            forall|j: int|
                0 <= j < i ==> #[trigger] tracks@[j]@ == settled_track(
                    given[j],
                    readings@[j]@,
                    measured@[j] as nat,
                ),
    {
        let millis = match &readings[i] {
            Reading::Millis(n) => *n,
            _ => measured[i],
        };
        assert(tracks@[i as int]@ == given[i as int]);
        tracks[i].duration_ms = millis;
        assert(tracks@[i as int]@ =~= settled_track(
            given[i as int],
            readings@[i as int]@,
            measured@[i as int] as nat,
        ));
    }
    playlist.tracks = tracks;
    playlist
}

/// The sheets that are playlists, each with the name of its file.
pub open spec fn playlist_sheets(sheets: Seq<(Seq<char>, SheetView)>) -> Seq<
    (Seq<char>, SheetView),
> {
    sheets.filter(|s: (Seq<char>, SheetView)| column(s.1.header, Field::Title) is Some)
}

/// The sheets without titles, each with the name of its file.
pub open spec fn untitled_sheets(sheets: Seq<(Seq<char>, SheetView)>) -> Seq<
    (Seq<char>, SheetView),
> {
    sheets.filter(|s: (Seq<char>, SheetView)| column(s.1.header, Field::Title) is None)
}

/// The sheets none of whose tracks has an ISRC.
pub open spec fn without_isrc(sheets: Seq<(Seq<char>, SheetView)>) -> nat
    decreases sheets.len(),
{
    if sheets.len() == 0 {
        0
    } else {
        without_isrc(sheets.drop_last()) + if with_isrc(sheet_tracks(sheets.last().1)) == 0 {
            1nat
        } else {
            0
        }
    }
}

/// What several sheets hold, each with the name of its file.
pub open spec fn sheet_views(sheets: Seq<(String, Sheet)>) -> Seq<(Seq<char>, SheetView)> {
    sheets.map_values(|s: (String, Sheet)| (s.0@, s.1@))
}

/// Everything that was read.
#[derive(Debug)]
pub struct Loaded {
    /// The playlists, in the order of their files.
    pub playlists: Vec<Parsed>,
    /// The names of the files without titles, each with its first headers.
    pub skipped: Vec<(String, Vec<String>)>,
    /// The playlists none of whose tracks has an ISRC, the only match that survives a
    /// differently-spelled title.
    pub without_isrc: usize,
}

impl Loaded {
    /// What several sheets give.
    pub open spec fn is_of(self, sheets: Seq<(Seq<char>, SheetView)>) -> bool {
        let good = playlist_sheets(sheets);
        let bad = untitled_sheets(sheets);
        &&& self.playlists@.len() == good.len()
        &&& forall|i: int|
            0 <= i < good.len() ==> (#[trigger] self.playlists@[i]).is_of(good[i].0, good[i].1)
        &&& self.skipped@.len() == bad.len()
        &&& forall|i: int|
            0 <= i < bad.len() ==> (#[trigger] self.skipped@[i]).0@ == bad[i].0 && views(
                self.skipped@[i].1@,
            ) == sample_of(bad[i].1.header)
        &&& self.without_isrc == without_isrc(good)
    }
}

/// Makes playlists of sheets.
pub fn load_sheets(sheets: &Vec<(String, Sheet)>) -> (r: Loaded)
    ensures
        r.is_of(sheet_views(sheets@)),
{
    let ghost all = sheet_views(sheets@);
    let ghost titled = |s: (Seq<char>, SheetView)| column(s.1.header, Field::Title) is Some;
    let ghost untitled = |s: (Seq<char>, SheetView)| column(s.1.header, Field::Title) is None;
    let mut playlists: Vec<Parsed> = Vec::new();
    let mut skipped: Vec<(String, Vec<String>)> = Vec::new();
    let mut bare: usize = 0;
    proof {
        reveal(Seq::filter);
    }
    for i in 0..sheets.len()
        invariant
            all == sheet_views(sheets@),
            bare <= i,
            titled == (|s: (Seq<char>, SheetView)| column(s.1.header, Field::Title) is Some),
            untitled == (|s: (Seq<char>, SheetView)| column(s.1.header, Field::Title) is None),
            playlists@.len() == all.take(i as int).filter(titled).len(),
            forall|j: int|
                0 <= j < playlists@.len() ==> (#[trigger] playlists@[j]).is_of(
                    all.take(i as int).filter(titled)[j].0,
                    all.take(i as int).filter(titled)[j].1,
                ),
            skipped@.len() == all.take(i as int).filter(untitled).len(),
            forall|j: int|
                0 <= j < skipped@.len() ==> (#[trigger] skipped@[j]).0@ == all.take(
                    i as int,
                ).filter(untitled)[j].0 && views(skipped@[j].1@) == sample_of(
                    all.take(i as int).filter(untitled)[j].1.header,
                ),
            bare == without_isrc(all.take(i as int).filter(titled)),
    {
        let ghost good = all.take(i as int).filter(titled);
        proof {
            lemma_take_next(all, i as int);
            lemma_filter_push(all.take(i as int), all[i as int], titled);
            lemma_filter_push(all.take(i as int), all[i as int], untitled);
            assert(good.push(all[i as int]).drop_last() =~= good);
        }
        let name = &sheets[i].0;
        match parse_sheet(name.as_str(), &sheets[i].1) {
            SheetOutcome::Playlist(parsed) => {
                if parsed.with_isrc == 0 {
                    bare = bare + 1;
                }
                playlists.push(parsed);
            },
            SheetOutcome::NoTitle(sample) => {
                skipped.push((name.clone(), sample));
            },
        }
    }
    assert(all.take(sheets@.len() as int) =~= all);
    Loaded { playlists, skipped, without_isrc: bare }
}

/// The names and contents of files.
pub open spec fn source_views(sources: Seq<(String, String)>) -> Seq<(Seq<char>, Seq<char>)> {
    sources.map_values(|s: (String, String)| (s.0@, s.1@))
}

/// The sheets of files.
pub open spec fn source_sheets(sources: Seq<(Seq<char>, Seq<char>)>) -> Seq<
    (Seq<char>, SheetView),
> {
    sources.map_values(|s: (Seq<char>, Seq<char>)| (s.0, csv_sheet(without_bom(s.1))))
}

/// Makes playlists of CSV files, given by name and contents and in order.
pub fn load(sources: &Vec<(String, String)>) -> (r: Result<Loaded, ParseError>)
    ensures
        r matches Ok(loaded) && loaded.is_of(source_sheets(source_views(sources@))),
{
    let ghost all = source_views(sources@);
    let mut sheets: Vec<(String, Sheet)> = Vec::new();
    for i in 0..sources.len()
        invariant
            all == source_views(sources@),
            sheets@.len() == i,
            forall|j: int|
                0 <= j < i ==> (#[trigger] sheets@[j]).0@ == all[j].0 && sheets@[j].1@ == csv_sheet(
                    without_bom(all[j].1),
                ),
    {
        assert(all[i as int] == (sources@[i as int].0@, sources@[i as int].1@));
        match read_sheet(sources[i].1.as_str()) {
            Ok(sheet) => {
                sheets.push((sources[i].0.clone(), sheet));
            },
            Err(err) => {
                return Err(err);
            },
        }
    }
    assert(sheet_views(sheets@) =~= source_sheets(all));
    Ok(load_sheets(&sheets))
}

/// No artist is empty or has white space at its ends.
pub proof fn law_artists_are_trimmed(raw: Seq<char>)
    ensures
        forall|i: int|
            0 <= i < artists_in(raw).len() ==> (#[trigger] artists_in(raw)[i]).len() > 0 && trim(
                artists_in(raw)[i],
            ) == artists_in(raw)[i],
{
    let parts = split(raw, artist_separator(raw));
    let names = trimmed(parts);
    assert forall|i: int| 0 <= i < artists_in(raw).len() implies (#[trigger] artists_in(
        raw,
    )[i]).len() > 0 && trim(artists_in(raw)[i]) == artists_in(raw)[i] by {
        names.lemma_filter_pred(nonempty(), i);
        lemma_filter_subset(names, nonempty(), i);
        let k = choose|k: int| 0 <= k < names.len() && names[k] == artists_in(raw)[i];
        lemma_trim(parts[k]);
    }
}

/// Artists joined by semicolons are told apart there and nowhere else, commas or not.
pub proof fn law_semicolon_keeps_commas(names: Seq<Seq<char>>)
    requires
        names.len() >= 2,
        forall|i: int|
            0 <= i < names.len() ==> {
                &&& (#[trigger] names[i]).len() > 0
                &&& trim(names[i]) == names[i]
                &&& !names[i].contains(';')
            },
    ensures
        artists_in(join(names, seq![';'])) == names,
{
    let raw = join(names, seq![';']);
    assert(raw[join(names.drop_last(), seq![';']).len() as int] == ';');
    lemma_split_join(names, ';');
    assert(trimmed(names) =~= names);
    lemma_filter_all(names, nonempty());
}

/// Every track of a playlist has a title and the number of its place.
pub proof fn law_tracks_are_titled_and_numbered(sheet: SheetView)
    ensures
        forall|i: int|
            0 <= i < sheet_tracks(sheet).len() ==> (#[trigger] sheet_tracks(sheet)[i]).position == i
                && sheet_tracks(sheet)[i].title.len() > 0,
{
    let rows = titled_rows(sheet.header, sheet.rows);
    lemma_titled(sheet.header, sheet.rows);
    assert forall|i: int| 0 <= i < sheet_tracks(sheet).len() implies (#[trigger] sheet_tracks(
        sheet,
    )[i]).position == i && sheet_tracks(sheet)[i].title.len() > 0 by {
        assert(cell(rows[i], column(sheet.header, Field::Title)).len() > 0);
    }
}

proof fn lemma_titled(header: Seq<Seq<char>>, rows: Seq<Option<Seq<Seq<char>>>>)
    ensures
        forall|i: int|
            0 <= i < titled_rows(header, rows).len() ==> cell(
                #[trigger] titled_rows(header, rows)[i],
                column(header, Field::Title),
            ).len() > 0,
    decreases rows.len(),
{
    if rows.len() > 0 {
        let before = titled_rows(header, rows.drop_last());
        lemma_titled(header, rows.drop_last());
        assert forall|i: int| 0 <= i < titled_rows(header, rows).len() implies cell(
            #[trigger] titled_rows(header, rows)[i],
            column(header, Field::Title),
        ).len() > 0 by {
            if i < before.len() {
                assert(titled_rows(header, rows)[i] == before[i]);
            }
        }
    }
}

/// One malformed line does not cost the playlist: without the rows that could not be read the
/// sheet gives the same tracks.
pub proof fn law_bad_rows_cost_nothing_else(sheet: SheetView)
    ensures
        sheet_tracks(
            (SheetView {
                header: sheet.header,
                rows: sheet.rows.filter(|r: Option<Seq<Seq<char>>>| r is Some),
            }),
        ) == sheet_tracks(sheet),
{
    lemma_titled_good(sheet.header, sheet.rows);
}

proof fn lemma_titled_good(header: Seq<Seq<char>>, rows: Seq<Option<Seq<Seq<char>>>>)
    ensures
        titled_rows(header, rows.filter(|r: Option<Seq<Seq<char>>>| r is Some)) == titled_rows(
            header,
            rows,
        ),
    decreases rows.len(),
{
    reveal(Seq::filter);
    let good = |r: Option<Seq<Seq<char>>>| r is Some;
    if rows.len() > 0 {
        let front = rows.drop_last();
        lemma_titled_good(header, front);
        if rows.last() is Some {
            assert(front.filter(good).push(rows.last()).drop_last() =~= front.filter(good));
        }
    }
}

/// Headers that are spelled with other case, spacing or punctuation give the same columns.
pub proof fn law_header_spelling_is_ignored(
    header: Seq<Seq<char>>,
    other: Seq<Seq<char>>,
    field: Field,
)
    requires
        header.len() == other.len(),
        forall|i: int|
            0 <= i < header.len() ==> bare_header(#[trigger] header[i]) == bare_header(other[i]),
    ensures
        column(header, field) == column(other, field),
{
    lemma_first_found_same(header, other, field.headers());
}

proof fn lemma_first_found_same(
    header: Seq<Seq<char>>,
    other: Seq<Seq<char>>,
    names: Seq<Seq<char>>,
)
    requires
        header.len() == other.len(),
        forall|i: int|
            0 <= i < header.len() ==> bare_header(#[trigger] header[i]) == bare_header(other[i]),
    ensures
        first_found(header, names) == first_found(other, names),
    decreases names.len(),
{
    if names.len() > 0 {
        lemma_last_named_same(header, other, names[0]);
        lemma_first_found_same(header, other, names.skip(1));
    }
}

proof fn lemma_last_named_same(
    header: Seq<Seq<char>>,
    other: Seq<Seq<char>>,
    name: Seq<char>,
)
    requires
        header.len() == other.len(),
        forall|i: int|
            0 <= i < header.len() ==> bare_header(#[trigger] header[i]) == bare_header(other[i]),
    ensures
        last_named(header, name) == last_named(other, name),
    decreases header.len(),
{
    if header.len() > 0 {
        assert(bare_header(header[header.len() - 1]) == bare_header(other[header.len() - 1]));
        assert forall|i: int| 0 <= i < header.drop_last().len() implies bare_header(
            #[trigger] header.drop_last()[i],
        ) == bare_header(other.drop_last()[i]) by {
            assert(header[i] == header.drop_last()[i]);
        }
        lemma_last_named_same(header.drop_last(), other.drop_last(), name);
    }
}

} // verus!
