//! What the texts in the cells of a sheet mean.

use vstd::prelude::*;

use crate::columns::{is_cell_of, law_column_is_found_by_any_spelling};
use crate::exportify::{
    artists_in, bad_rows, bare_header, clock_seconds, column, csv_sheet, is_exact_clock, is_whole,
    number, playlist_name, playlist_sheets, reading, reading_views, says_ms, settled_track,
    sheet_readings, sheet_tracks, source_sheets, titled_rows, trimmed, untitled_sheets, with_isrc,
    without_bom, without_isrc, Field, Loaded, Parsed, Reading, ReadingView, Sheet, SheetOutcome,
    SheetView, MAX_EXACT_SECONDS,
};
use crate::model::{bare_isrc, TrackView};
use crate::text::{
    alphanumerics, decimal, digit, is_alphanumeric, is_digit, is_whitespace, join,
    law_trim_undoes_padding, lemma_filter_push, lemma_push_contains, lemma_split_join,
    lemma_split_len, lemma_trim, lower, nonempty, occurs_at, replaced, split, trim, upper, views,
    Separator,
};

verus! {

/// What is written in decimal digits is read back.
pub proof fn law_decimal_reads_back(n: nat)
    ensures
        number(decimal(n)) == n,
        decimal(n).len() > 0,
        forall|i: int| 0 <= i < decimal(n).len() ==> is_digit(#[trigger] decimal(n)[i]),
    decreases n,
{
    if n >= 10 {
        law_decimal_reads_back(n / 10);
        assert(decimal(n).drop_last() =~= decimal(n / 10));
    } else {
        assert(decimal(n).drop_last() =~= Seq::<char>::empty());
        assert(number(decimal(n).drop_last()) == 0);
    }
    assert(digit(n % 10) as nat - 48 == n % 10);
}

/// Whether a header has an "m" and an "s" next to each other, but for what is no letter or digit
/// and whatever the case.
pub open spec fn mentions_ms(header: Seq<char>) -> bool {
    exists|i: int|
        0 <= i < bare_header(header).len() - 1 && #[trigger] bare_header(header)[i] == 'm'
            && bare_header(header)[i + 1] == 's'
}

proof fn lemma_mentions_ms(header: Seq<char>)
    ensures
        says_ms(header) == mentions_ms(header),
{
    reveal_strlit("ms");
    let h = bare_header(header);
    if says_ms(header) {
        let i = choose|i: int| #[trigger] occurs_at(h, "ms"@, i);
        assert(h.subrange(i, i + 2)[0] == h[i]);
        assert(h.subrange(i, i + 2)[1] == h[i + 1]);
        assert(h[i] == 'm' && h[i + 1] == 's');
    }
    if mentions_ms(header) {
        let i = choose|i: int|
            0 <= i < h.len() - 1 && #[trigger] h[i] == 'm' && h[i + 1] == 's';
        assert(h.subrange(i, i + 2) =~= "ms"@);
        assert(occurs_at(h, "ms"@, i));
    }
}

/// A whole number is one of milliseconds where the header says so or where it is at least ten
/// thousand, and else one of seconds, whatever white space is around it.
pub proof fn law_whole_duration(
    before: Seq<char>,
    n: nat,
    behind: Seq<char>,
    header: Seq<char>,
)
    requires
        n < 0x20_0000_0000_0000,
        forall|k: int| 0 <= k < before.len() ==> is_whitespace(#[trigger] before[k]),
        forall|k: int| 0 <= k < behind.len() ==> is_whitespace(#[trigger] behind[k]),
    ensures
        reading(before + decimal(n) + behind, header) == ReadingView::Millis(
            if mentions_ms(header) || n >= 10_000 {
                n
            } else {
                n * 1000
            },
        ),
{
    law_decimal_reads_back(n);
    law_trim_undoes_padding(before, decimal(n), behind);
    lemma_mentions_ms(header);
    assert(is_whole(decimal(n)));
    assert(!decimal(n).contains(':'));
}

/// A cell with nothing in it says nothing of a duration.
pub proof fn law_blank_duration(blank: Seq<char>, header: Seq<char>)
    requires
        forall|k: int| 0 <= k < blank.len() ==> is_whitespace(#[trigger] blank[k]),
    ensures
        reading(blank, header) == ReadingView::Millis(0),
{
    law_trim_undoes_padding(blank, Seq::empty(), Seq::empty());
    assert(blank + Seq::<char>::empty() + Seq::<char>::empty() =~= blank);
}

/// Numbers of units that are worth sixty of the next one, in the last unit.
pub open spec fn in_sixties(numbers: Seq<nat>) -> nat
    decreases numbers.len(),
{
    if numbers.len() == 0 {
        0
    } else {
        numbers.last() + 60 * in_sixties(numbers.drop_last())
    }
}

/// Whole numbers with colons between them are hours, minutes and seconds, whatever the header
/// says.
pub proof fn law_clock_duration(numbers: Seq<nat>, header: Seq<char>)
    requires
        numbers.len() >= 2,
        in_sixties(numbers) <= 9_007_199_254_740,
    ensures
        reading(join(numbers.map_values(|n: nat| decimal(n)), seq![':']), header)
            == ReadingView::Millis(in_sixties(numbers) * 1000),
{
    let parts = numbers.map_values(|n: nat| decimal(n));
    let text = join(parts, seq![':']);
    assert forall|i: int| 0 <= i < parts.len() implies {
        &&& !(#[trigger] parts[i]).contains(':')
        &&& parts[i].len() > 0
    } by {
        law_decimal_reads_back(numbers[i]);
    }
    lemma_split_join(parts, ':');
    assert(text[join(parts.drop_last(), seq![':']).len() as int] == ':');
    lemma_clock_chars(numbers);
    law_trim_undoes_padding(Seq::empty(), text, Seq::empty());
    assert(Seq::<char>::empty() + text + Seq::<char>::empty() =~= text);
    lemma_clock_seconds(numbers);
}

proof fn lemma_clock_chars(numbers: Seq<nat>)
    ensures
        ({
            let text = join(numbers.map_values(|n: nat| decimal(n)), seq![':']);
            forall|i: int| 0 <= i < text.len() ==> !is_whitespace(#[trigger] text[i])
        }),
    decreases numbers.len(),
{
    let parts = numbers.map_values(|n: nat| decimal(n));
    let text = join(parts, seq![':']);
    if numbers.len() > 0 {
        let front = numbers.drop_last();
        lemma_clock_chars(front);
        law_decimal_reads_back(numbers.last());
        assert(parts.drop_last() =~= front.map_values(|n: nat| decimal(n)));
        let head = join(parts.drop_last(), seq![':']);
        let last = decimal(numbers.last());
        assert(parts.last() == last);
        assert forall|i: int| 0 <= i < text.len() implies !is_whitespace(#[trigger] text[i]) by {
            if parts.len() == 1 {
                assert(text == last);
                assert(is_digit(last[i]));
            } else if i < head.len() {
                assert(text[i] == head[i]);
            } else if i > head.len() {
                assert(text[i] == last[i - head.len() - 1]);
                assert(is_digit(last[i - head.len() - 1]));
            }
        }
    }
}

proof fn lemma_clock_seconds(numbers: Seq<nat>)
    requires
        in_sixties(numbers) <= MAX_EXACT_SECONDS,
    ensures
        is_exact_clock(numbers.map_values(|n: nat| decimal(n))),
        clock_seconds(numbers.map_values(|n: nat| decimal(n))) == in_sixties(numbers),
    decreases numbers.len(),
{
    let parts = numbers.map_values(|n: nat| decimal(n));
    if numbers.len() > 0 {
        let front = numbers.drop_last();
        let before = front.map_values(|n: nat| decimal(n));
        lemma_clock_seconds(front);
        law_decimal_reads_back(numbers.last());
        assert(parts.drop_last() =~= before);
        assert(parts.last() == decimal(numbers.last()));
        assert forall|i: int| 0 <= i < parts.len() implies is_whole(#[trigger] parts[i]) by {
            if i < before.len() {
                assert(parts[i] == before[i]);
            }
        }
    }
}

/// Where there is no semicolon, artists are told apart by commas, whatever white space is around
/// them.
pub proof fn law_commas_part_artists(names: Seq<Seq<char>>)
    requires
        names.len() > 0,
        forall|i: int|
            0 <= i < names.len() ==> !(#[trigger] names[i]).contains(';') && !names[i].contains(
                ',',
            ),
    ensures
        artists_in(join(names, seq![','])) == names.map_values(|n: Seq<char>| trim(n)).filter(
            |n: Seq<char>| n.len() > 0,
        ),
{
    let raw = join(names, seq![',']);
    lemma_join_lacks(names, ',', ';');
    lemma_split_join(names, ',');
    assert(trimmed(names) =~= names.map_values(|n: Seq<char>| trim(n)));
    assert(nonempty() =~= (|n: Seq<char>| n.len() > 0));
}

proof fn lemma_join_lacks(names: Seq<Seq<char>>, sep: char, c: char)
    requires
        sep != c,
        forall|i: int| 0 <= i < names.len() ==> !(#[trigger] names[i]).contains(c),
    ensures
        !join(names, seq![sep]).contains(c),
    decreases names.len(),
{
    let all = join(names, seq![sep]);
    if names.len() == 1 {
        assert(all == names[0]);
    } else if names.len() > 1 {
        let front = names.drop_last();
        assert forall|i: int| 0 <= i < front.len() implies !(#[trigger] front[i]).contains(c) by {
            assert(front[i] == names[i]);
        }
        lemma_join_lacks(front, sep, c);
        let head = join(front, seq![sep]);
        let last = names.last();
        assert(!names[names.len() - 1].contains(c));
        if all.contains(c) {
            let k = choose|k: int| 0 <= k < all.len() && all[k] == c;
            if k < head.len() {
                assert(head[k] == c);
            } else if k > head.len() {
                assert(last[k - head.len() - 1] == c);
            }
        }
    }
}

/// Of a header only letters and digits count, in lower case: each other character could as well
/// not be there.
pub proof fn law_headers_are_letters_and_digits(a: Seq<char>, c: char, b: Seq<char>)
    ensures
        bare_header(a + seq![c] + b) == bare_header(a) + (if is_alphanumeric(c) {
            seq![lower(c)]
        } else {
            Seq::empty()
        }) + bare_header(b),
        bare_header(Seq::empty()).len() == 0,
{
    let p = |c: char| is_alphanumeric(c);
    lemma_alphanumerics(a, c, b);
    assert(bare_header(a + seq![c] + b) =~= bare_header(a) + (if is_alphanumeric(c) {
        seq![lower(c)]
    } else {
        Seq::empty()
    }) + bare_header(b));
    reveal(Seq::filter);
}

/// Of an ISRC only letters and digits count, in upper case: each other character could as well not
/// be there.
pub proof fn law_isrcs_are_letters_and_digits(a: Seq<char>, c: char, b: Seq<char>)
    ensures
        bare_isrc(a + seq![c] + b) == bare_isrc(a) + (if is_alphanumeric(c) {
            seq![upper(c)]
        } else {
            Seq::empty()
        }) + bare_isrc(b),
        bare_isrc(Seq::empty()).len() == 0,
{
    lemma_alphanumerics(a, c, b);
    assert(bare_isrc(a + seq![c] + b) =~= bare_isrc(a) + (if is_alphanumeric(c) {
        seq![upper(c)]
    } else {
        Seq::empty()
    }) + bare_isrc(b));
    reveal(Seq::filter);
}

proof fn lemma_alphanumerics(a: Seq<char>, c: char, b: Seq<char>)
    ensures
        alphanumerics(a + seq![c] + b) == alphanumerics(a) + (if is_alphanumeric(c) {
            seq![c]
        } else {
            Seq::empty()
        }) + alphanumerics(b),
{
    let p = |c: char| is_alphanumeric(c);
    Seq::filter_distributes_over_add(a + seq![c], b, p);
    assert(a + seq![c] =~= a.push(c));
    lemma_filter_push(a, c, p);
    assert(alphanumerics(a + seq![c] + b) =~= alphanumerics(a) + (if is_alphanumeric(c) {
        seq![c]
    } else {
        Seq::empty()
    }) + alphanumerics(b));
}

/// Letters differ from each other only in case after lower or upper case: lower case has no
/// upper-case letter, upper case no lower-case one, and nothing but letters changes.
pub proof fn law_case_of_letters(c: char)
    ensures
        !('A' <= lower(c) <= 'Z'),
        !('a' <= upper(c) <= 'z'),
        'a' <= c <= 'z' ==> lower(upper(c)) == c,
        'A' <= c <= 'Z' ==> upper(lower(c)) == c,
        !('A' <= c <= 'Z') ==> lower(c) == c,
        !('a' <= c <= 'z') ==> upper(c) == c,
{
}

/// A playlist is named like its file, with a space for each underscore and no white space around
/// it.
pub proof fn law_playlists_are_named_like_their_files(name: Seq<char>)
    ensures
        !playlist_name(name).contains('_'),
        !name.contains('_') ==> playlist_name(name) == trim(name),
        playlist_name(playlist_name(name)) == playlist_name(name),
{
    let spaced = replaced(name, '_', ' ');
    crate::text::lemma_trim_part(spaced);
    lemma_trim(spaced);
    assert forall|i: int| 0 <= i < playlist_name(name).len() implies playlist_name(name)[i]
        != '_' by {
        assert(spaced.contains(playlist_name(name)[i]));
    }
    if !name.contains('_') {
        assert(spaced =~= name);
    }
    assert(replaced(playlist_name(name), '_', ' ') =~= playlist_name(name));
}

/// An underscore in the name of a file stands for a space.
pub proof fn law_underscores_are_spaces(a: Seq<char>, b: Seq<char>)
    ensures
        playlist_name(a + seq!['_'] + b) == playlist_name(a + seq![' '] + b),
{
    assert(replaced(a + seq!['_'] + b, '_', ' ') =~= replaced(a + seq![' '] + b, '_', ' '));
}

/// What was measured fills the durations that a file leaves open, and nothing else of a track
/// changes.
pub proof fn law_measured_durations_fill_open_ones(
    track: TrackView,
    read: ReadingView,
    measured: nat,
    n: nat,
)
    ensures
        settled_track(track, read, measured) == (TrackView {
            duration_ms: settled_track(track, read, measured).duration_ms,
            ..track
        }),
        read == ReadingView::Millis(n) ==> settled_track(track, read, measured).duration_ms == n,
        !(read is Millis) ==> settled_track(track, read, measured).duration_ms == measured,
{
}

/// Every sheet with a title column is a playlist, every other one is skipped, and both keep their
/// order.
pub proof fn law_every_sheet_is_a_playlist_or_skipped(
    sheets: Seq<(Seq<char>, SheetView)>,
    more: (Seq<char>, SheetView),
)
    ensures
        column(more.1.header, Field::Title) is Some ==> playlist_sheets(
            sheets.push(more),
        ) == playlist_sheets(sheets).push(more) && untitled_sheets(sheets.push(more))
            == untitled_sheets(sheets),
        column(more.1.header, Field::Title) is None ==> playlist_sheets(
            sheets.push(more),
        ) == playlist_sheets(sheets) && untitled_sheets(sheets.push(more)) == untitled_sheets(
            sheets,
        ).push(more),
        playlist_sheets(Seq::empty()).len() == 0,
        untitled_sheets(Seq::empty()).len() == 0,
{
    lemma_filter_push(
        sheets,
        more,
        |s: (Seq<char>, SheetView)| column(s.1.header, Field::Title) is Some,
    );
    lemma_filter_push(
        sheets,
        more,
        |s: (Seq<char>, SheetView)| column(s.1.header, Field::Title) is None,
    );
    reveal(Seq::filter);
}

/// Tracks with an ISRC are counted, and a sheet counts as one without ISRCs if and only if none of
/// its tracks has one.
pub proof fn law_missing_isrcs_are_counted(
    sheets: Seq<(Seq<char>, SheetView)>,
    more: (Seq<char>, SheetView),
)
    ensures
        without_isrc(sheets.push(more)) == without_isrc(sheets) + if forall|i: int|
            0 <= i < sheet_tracks(more.1).len() ==> (#[trigger] sheet_tracks(more.1)[i]).isrc.len()
                == 0 {
            1nat
        } else {
            0
        },
        without_isrc(Seq::empty()) == 0,
{
    assert(sheets.push(more).drop_last() =~= sheets);
    lemma_with_isrc(sheet_tracks(more.1));
}

proof fn lemma_with_isrc(tracks: Seq<TrackView>)
    ensures
        with_isrc(tracks) == 0 <==> forall|i: int|
            0 <= i < tracks.len() ==> (#[trigger] tracks[i]).isrc.len() == 0,
    decreases tracks.len(),
{
    if tracks.len() > 0 {
        let front = tracks.drop_last();
        lemma_with_isrc(front);
        if with_isrc(tracks) == 0 {
            assert forall|i: int| 0 <= i < tracks.len() implies (#[trigger] tracks[i]).isrc.len()
                == 0 by {
                if i < front.len() {
                    assert(front[i].isrc.len() == 0);
                }
            }
        }
        if forall|i: int| 0 <= i < tracks.len() ==> (#[trigger] tracks[i]).isrc.len() == 0 {
            assert forall|i: int| 0 <= i < front.len() implies (#[trigger] front[i]).isrc.len()
                == 0 by {
                assert(tracks[i].isrc.len() == 0);
            }
            assert(tracks[tracks.len() - 1].isrc.len() == 0);
        }
    }
}

/// Durations that are no whole numbers are left open, as they stand.
pub proof fn law_other_durations_are_left_open(text: Seq<char>, header: Seq<char>)
    requires
        trim(text).len() > 0,
    ensures
        trim(text).contains(':') && (exists|i: int|
            0 <= i < trim(text).len() && !is_digit(#[trigger] trim(text)[i]) && trim(text)[i]
                != ':') ==> reading(text, header) == ReadingView::Clock(
            split(trim(text), Separator::Char(':')),
        ),
        !trim(text).contains(':') && (exists|i: int|
            0 <= i < trim(text).len() && !is_digit(#[trigger] trim(text)[i])) ==> reading(
            text,
            header,
        ) == (ReadingView::Decimal { text: trim(text), header_says_ms: mentions_ms(header) }),
{
    lemma_mentions_ms(header);
    let bare = trim(text);
    if exists|i: int| 0 <= i < bare.len() && !is_digit(#[trigger] bare[i]) && bare[i] != ':' {
        let i = choose|i: int|
            0 <= i < bare.len() && !is_digit(#[trigger] bare[i]) && bare[i] != ':';
        let parts = split(bare, Separator::Char(':'));
        let k = lemma_split_has(bare, Separator::Char(':'), i);
        let j = choose|j: int| 0 <= j < parts[k].len() && parts[k][j] == bare[i];
        assert(!is_digit(parts[k][j]));
        assert(!is_whole(parts[k]));
    }
}

/// A sheet becomes a playlist of its own name, with the tracks of the sheet and a reading for each,
/// that belongs to the listener.
pub proof fn law_playlist_is_made_of_its_sheet(parsed: Parsed, name: Seq<char>, sheet: SheetView)
    requires
        parsed.is_of(name, sheet),
    ensures
        parsed.playlist@.name == playlist_name(name),
        parsed.playlist@.mine,
        parsed.playlist@.spotify_id.len() == 0,
        parsed.playlist@.owner.len() == 0,
        parsed.playlist@.tracks == sheet_tracks(sheet),
        parsed.readings@.len() == parsed.playlist@.tracks.len(),
        reading_views(parsed.readings@) == sheet_readings(sheet),
        parsed.bad_rows == bad_rows(sheet.rows),
        parsed.with_isrc == with_isrc(sheet_tracks(sheet)),
{
    assert(reading_views(parsed.readings@).len() == parsed.readings@.len());
}

/// A sheet is a playlist if and only if it has a title column; of one that has none up to six
/// headers are shown, from the first on.
pub proof fn law_titles_make_a_playlist(outcome: SheetOutcome, name: Seq<char>, sheet: SheetView)
    requires
        outcome.is_of(name, sheet),
    ensures
        outcome is Playlist <==> column(sheet.header, Field::Title) is Some,
        outcome matches SheetOutcome::Playlist(parsed) ==> parsed.is_of(name, sheet),
        outcome matches SheetOutcome::NoTitle(sample) ==> {
            &&& sample@.len() == if sheet.header.len() < 6 {
                sheet.header.len()
            } else {
                6
            }
            &&& forall|i: int|
                0 <= i < sample@.len() ==> (#[trigger] sample@[i])@ == sheet.header[i]
        },
{
    if let SheetOutcome::NoTitle(sample) = outcome {
        assert(views(sample@).len() == sample@.len());
        assert forall|i: int| 0 <= i < sample@.len() implies (#[trigger] sample@[i])@
            == sheet.header[i] by {
            assert(views(sample@)[i] == sample@[i]@);
        }
    }
}

/// Everything that is loaded comes from the sheets, in their order: a playlist from each with a
/// title column, and a note from each without one.
pub proof fn law_loading_keeps_every_sheet(loaded: Loaded, sheets: Seq<(Seq<char>, SheetView)>)
    requires
        loaded.is_of(sheets),
    ensures
        loaded.playlists@.len() == playlist_sheets(sheets).len(),
        loaded.skipped@.len() == untitled_sheets(sheets).len(),
        loaded.playlists@.len() + loaded.skipped@.len() == sheets.len(),
        loaded.without_isrc == without_isrc(playlist_sheets(sheets)),
        forall|i: int|
            0 <= i < loaded.playlists@.len() ==> (#[trigger] loaded.playlists@[i]).is_of(
                playlist_sheets(sheets)[i].0,
                playlist_sheets(sheets)[i].1,
            ),
{
    lemma_sheets_add_up(sheets);
}

proof fn lemma_sheets_add_up(sheets: Seq<(Seq<char>, SheetView)>)
    ensures
        playlist_sheets(sheets).len() + untitled_sheets(sheets).len() == sheets.len(),
    decreases sheets.len(),
{
    if sheets.len() > 0 {
        let front = sheets.drop_last();
        lemma_sheets_add_up(front);
        law_every_sheet_is_a_playlist_or_skipped(front, sheets.last());
        assert(front.push(sheets.last()) =~= sheets);
    } else {
        law_every_sheet_is_a_playlist_or_skipped(sheets, sheets[0]);
        assert(sheets =~= Seq::empty());
    }
}

/// A byte order mark before a file is no part of it, and nothing else is left out.
pub proof fn law_byte_order_mark_is_no_text(text: Seq<char>)
    ensures
        without_bom(seq!['\u{feff}'] + text) == text,
        text.len() == 0 || text[0] != '\u{feff}' ==> without_bom(text) == text,
{
    let mark = seq!['\u{feff}'];
    let all = mark + text;
    assert(all.subrange(0, 1) =~= mark);
    assert(all.skip(1) =~= text);
    if text.len() > 0 && text[0] != '\u{feff}' {
        assert(text.subrange(0, 1)[0] == text[0]);
    }
}

/// Each file gives the sheet of its own text under its own name.
pub proof fn law_every_file_gives_its_own_sheet(sources: Seq<(Seq<char>, Seq<char>)>, i: int)
    requires
        0 <= i < sources.len(),
    ensures
        source_sheets(sources).len() == sources.len(),
        source_sheets(sources)[i].0 == sources[i].0,
        source_sheets(sources)[i].1 == csv_sheet(without_bom(sources[i].1)),
{
}

/// Tracks with an ISRC and rows that could not be read are counted one by one.
pub proof fn law_isrcs_and_bad_rows_are_counted(
    tracks: Seq<TrackView>,
    track: TrackView,
    rows: Seq<Option<Seq<Seq<char>>>>,
    row: Option<Seq<Seq<char>>>,
)
    ensures
        with_isrc(tracks.push(track)) == with_isrc(tracks) + if track.isrc.len() > 0 {
            1int
        } else {
            0
        },
        bad_rows(rows.push(row)) == bad_rows(rows) + if row is None {
            1int
        } else {
            0
        },
        with_isrc(Seq::empty()) == 0,
        bad_rows(Seq::empty()) == 0,
{
    assert(tracks.push(track).drop_last() =~= tracks);
    assert(rows.push(row).drop_last() =~= rows);
}

/// What is said of a sheet and of readings is what they hold.
pub proof fn law_sheets_say_what_they_hold(sheet: Sheet, read: Reading)
    ensures
        sheet@.header == views(sheet.header@),
        sheet@.rows.len() == sheet.rows@.len(),
        forall|i: int|
            0 <= i < sheet.rows@.len() ==> match #[trigger] sheet.rows@[i] {
                Some(cells) => sheet@.rows[i] == Some(views(cells@)),
                None => sheet@.rows[i] is None,
            },
        read matches Reading::Millis(n) ==> read@ == ReadingView::Millis(n as nat),
        read matches Reading::Clock(parts) ==> read@ == ReadingView::Clock(views(parts@)),
        read matches Reading::Decimal { text, header_says_ms } ==> read@ == (
        ReadingView::Decimal { text: text@, header_says_ms }),
{
}

/// One digit more makes a number ten times as large and adds the digit.
pub proof fn law_digits_make_a_number(s: Seq<char>, c: char)
    requires
        '0' <= c <= '9',
    ensures
        number(s.push(c)) == 10 * number(s) + (c as int - '0' as int),
        number(Seq::empty()) == 0,
{
    assert(s.push(c).drop_last() =~= s);
}

/// What is read of durations comes from the duration cells of the rows that are tracks, each under
/// the header of that column, and a track has the milliseconds that its cell says, if it does.
pub proof fn law_durations_come_from_their_cells(
    sheet: SheetView,
    i: int,
    text: Seq<char>,
    head: Seq<char>,
    n: nat,
)
    requires
        0 <= i < sheet_tracks(sheet).len(),
        is_cell_of(
            sheet.header,
            titled_rows(sheet.header, sheet.rows)[i],
            Field::Duration,
            text,
        ),
        is_cell_of(sheet.header, sheet.header, Field::Duration, head),
    ensures
        sheet_readings(sheet).len() == sheet_tracks(sheet).len(),
        sheet_readings(sheet)[i] == reading(trim(text), head),
        sheet_readings(sheet)[i] == ReadingView::Millis(n) ==> sheet_tracks(sheet)[i].duration_ms
            == n,
        !(sheet_readings(sheet)[i] is Millis) ==> sheet_tracks(sheet)[i].duration_ms == 0,
{
    law_column_is_found_by_any_spelling(sheet.header, Field::Duration);
}

/// Artists with semicolons between them are told apart there, whatever white space is around them
/// and whatever commas are in them.
pub proof fn law_semicolons_part_artists(names: Seq<Seq<char>>)
    requires
        names.len() >= 2,
        forall|i: int| 0 <= i < names.len() ==> !(#[trigger] names[i]).contains(';'),
    ensures
        artists_in(join(names, seq![';'])) == names.map_values(|n: Seq<char>| trim(n)).filter(
            |n: Seq<char>| n.len() > 0,
        ),
{
    let raw = join(names, seq![';']);
    assert(raw[join(names.drop_last(), seq![';']).len() as int] == ';');
    lemma_split_join(names, ';');
    assert(trimmed(names) =~= names.map_values(|n: Seq<char>| trim(n)));
    assert(nonempty() =~= (|n: Seq<char>| n.len() > 0));
}

/// Every character of a text but the separators is in one of its parts.
proof fn lemma_split_has(s: Seq<char>, sep: Separator, i: int) -> (k: int)
    requires
        0 <= i < s.len(),
        !sep.covers(s[i]),
    ensures
        0 <= k < split(s, sep).len(),
        split(s, sep)[k].contains(s[i]),
    decreases s.len(),
{
    let front = s.drop_last();
    let before = split(front, sep);
    lemma_split_len(front, sep);
    if i < front.len() {
        let k = lemma_split_has(front, sep, i);
        if !sep.covers(s.last()) && k == before.len() - 1 {
            lemma_push_contains(before[k], s.last(), s[i]);
        }
        k
    } else {
        let k = before.len() - 1;
        lemma_push_contains(before[k], s[i], s[i]);
        k
    }
}

} // verus!
