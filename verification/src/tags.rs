//! Writing one multi-value tag per file that lists every playlist it belongs to, and reading what
//! the importer matches by.
//!
//! A track in three playlists stays a single file on disk with three values in a single tag, not
//! three copies and not three separate tags.

use lofty::tag::{Accessor, ItemKey, ItemValue, Tag, TagItem};
use vstd::prelude::*;

use crate::model::{bare_isrc, norm_isrc};
use crate::order::{insert_text, is_set_of, lemma_set_is_unique, strictly_ascending};
use crate::text::{
    join, join_texts, lemma_filter_all, lemma_push_contains, lemma_split_join, lemma_take_next,
    split, text_view, views, Separator,
};

verus! {

/// The format of a tag.
#[derive(Clone, Copy, PartialEq, Eq, Debug)]
pub enum TagType {
    Ape,
    Id3v1,
    Id3v2,
    Mp4Ilst,
    VorbisComments,
    RiffInfo,
    AiffText,
    /// Any other format.
    Other,
}

/// The name of the freeform key that holds a tag in a format.
pub open spec fn key_name(tag_type: TagType, tag_name: Seq<char>) -> Seq<char> {
    match tag_type {
        TagType::Mp4Ilst => "----:com.apple.iTunes:"@ + tag_name,
        _ => tag_name,
    }
}

/// MP4 only accepts a four-character atom or a `----:mean:name` freeform one, so an
/// eight-character key has to be spelled out the long way. Every other container takes the bare
/// name.
pub fn key_for(tag_type: TagType, tag_name: &str) -> (r: String)
    ensures
        r@ == key_name(tag_type, tag_name@),
{
    match tag_type {
        TagType::Mp4Ilst => {
            let mut r = String::from_str("----:com.apple.iTunes:");
            r.append(tag_name);
            r
        },
        _ => String::from_str(tag_name),
    }
}

/// A tag of a file.
#[verifier::external_type_specification]
#[verifier::external_body]
pub struct ExTag(Tag);

/// The key of an item in a tag, as far as the importer tells keys apart.
pub enum Key {
    TrackArtist,
    TrackTitle,
    AlbumArtist,
    Isrc,
    /// A key that goes by its name alone.
    Unknown(Seq<char>),
    Other,
}

/// The items of a tag in order, each with its text where it holds one.
pub uninterp spec fn tag_items(tag: Tag) -> Seq<(Key, Option<Seq<char>>)>;

/// The first item under a key: its text, where it holds one.
pub open spec fn first_text(items: Seq<(Key, Option<Seq<char>>)>, key: Key) -> Option<Seq<char>>
    decreases items.len(),
{
    if items.len() == 0 {
        None
    } else if items[0].0 == key {
        items[0].1
    } else {
        first_text(items.skip(1), key)
    }
}

/// `Tag::artist`: the text of the first item under the track artist's key, if it is a text.
#[verifier::external_body]
fn tag_artist(tag: &Tag) -> (r: Option<String>)
    ensures
        text_view(r) == first_text(tag_items(*tag), Key::TrackArtist),
{
    tag.artist().map(|text| text.into_owned())
}

/// `Tag::title`: the text of the first item under the track title's key, if it is a text.
#[verifier::external_body]
fn tag_title(tag: &Tag) -> (r: Option<String>)
    ensures
        text_view(r) == first_text(tag_items(*tag), Key::TrackTitle),
{
    tag.title().map(|text| text.into_owned())
}

/// A field that is read by its key.
#[derive(Clone, Copy)]
enum TextField {
    AlbumArtist,
    Isrc,
}

impl TextField {
    spec fn key(self) -> Key {
        match self {
            TextField::AlbumArtist => Key::AlbumArtist,
            TextField::Isrc => Key::Isrc,
        }
    }
}

/// `Tag::get_string`: the text of the first item under a key, if it is a text.
#[verifier::external_body]
fn tag_string(tag: &Tag, field: TextField) -> (r: Option<String>)
    ensures
        text_view(r) == first_text(tag_items(*tag), field.key()),
{
    let key = match field {
        TextField::AlbumArtist => ItemKey::AlbumArtist,
        TextField::Isrc => ItemKey::Isrc,
    };
    tag.get_string(&key).map(|text| text.to_string())
}

/// The items of a tag that are not under an unknown key of this name.
pub open spec fn not_under(key: Seq<char>) -> spec_fn((Key, Option<Seq<char>>)) -> bool {
    |item: (Key, Option<Seq<char>>)| item.0 != Key::Unknown(key)
}

/// `Tag::remove_key` of `ItemKey::Unknown`: every item under that key goes, the others stay in
/// their order.
#[verifier::external_body]
fn remove_unknown(tag: &mut Tag, key: &str)
    ensures
        tag_items(*final(tag)) == tag_items(*old(tag)).filter(not_under(key@)),
{
    tag.remove_key(&ItemKey::Unknown(key.to_string()))
}

/// `Tag::push_unchecked` of a text under `ItemKey::Unknown`: the item goes behind the others.
///
/// `Tag::push` would drop it, since it does not take unknown keys. The writers of all formats do.
#[verifier::external_body]
fn push_unknown(tag: &mut Tag, key: &str, text: &str)
    ensures
        tag_items(*final(tag)) == tag_items(*old(tag)).push((Key::Unknown(key@), Some(text@))),
{
    tag.push_unchecked(
        TagItem::new(ItemKey::Unknown(key.to_string()), ItemValue::Text(text.to_string())),
    )
}

/// What the importer reads from a file.
#[derive(Debug)]
pub struct FileTags {
    pub artist: String,
    pub title: String,
    pub isrc: String,
    /// Nanoseconds. 0 when the format did not report one.
    pub duration_ns: u128,
}

/// What [`FileTags`] say.
#[verifier::ext_equal]
pub struct FileTagsView {
    pub artist: Seq<char>,
    pub title: Seq<char>,
    pub isrc: Seq<char>,
    pub duration_ns: nat,
}

impl View for FileTags {
    type V = FileTagsView;

    open spec fn view(&self) -> FileTagsView {
        FileTagsView {
            artist: self.artist@,
            title: self.title@,
            isrc: self.isrc@,
            duration_ns: self.duration_ns as nat,
        }
    }
}

/// A text that may be missing; the empty one where it is.
pub open spec fn or_empty(text: Option<Seq<char>>) -> Seq<char> {
    match text {
        Some(t) => t,
        None => Seq::empty(),
    }
}

/// What the items of a tag say, for a file of some length.
pub open spec fn tags_of(
    items: Seq<(Key, Option<Seq<char>>)>,
    duration_ns: nat,
) -> FileTagsView {
    FileTagsView {
        artist: match first_text(items, Key::TrackArtist) {
            Some(artist) if artist.len() > 0 => artist,
            _ => or_empty(first_text(items, Key::AlbumArtist)),
        },
        title: or_empty(first_text(items, Key::TrackTitle)),
        isrc: bare_isrc(or_empty(first_text(items, Key::Isrc))),
        duration_ns,
    }
}

/// Reads what a file is matched by. The artist falls back to the album artist: compilations and
/// soundtracks often leave the track artist empty.
pub fn read_tags(tag: &Tag, duration_ns: u128) -> (r: FileTags)
    ensures
        r@ == tags_of(tag_items(*tag), duration_ns as nat),
{
    let artist = match tag_artist(tag) {
        Some(artist) if !artist.as_str().is_empty() => artist,
        _ => match tag_string(tag, TextField::AlbumArtist) {
            Some(artist) => artist,
            None => String::new(),
        },
    };
    let title = match tag_title(tag) {
        Some(title) => title,
        None => String::new(),
    };
    let raw = match tag_string(tag, TextField::Isrc) {
        Some(isrc) => isrc,
        None => String::new(),
    };
    FileTags { artist, title, isrc: norm_isrc(raw.as_str()), duration_ns }
}

/// Sorts values and drops repeated ones.
pub fn sorted_values(values: &Vec<String>) -> (r: Vec<String>)
    ensures
        is_set_of(views(r@), views(values@)),
{
    let ghost all = views(values@);
    let mut r: Vec<String> = Vec::new();
    for i in 0..values.len()
        invariant
            all == views(values@),
            is_set_of(views(r@), all.take(i as int)),
    {
        let ghost before = views(r@);
        insert_text(&mut r, values[i].as_str());
        proof {
            lemma_take_next(all, i as int);
            let some = all.take(i as int);
            assert forall|t: Seq<char>| #[trigger] views(r@).contains(t) <==> some.push(
                all[i as int],
            ).contains(t) by {
                lemma_push_contains(before, all[i as int], t);
                lemma_push_contains(some, all[i as int], t);
            }
        }
    }
    assert(all.take(values@.len() as int) =~= all);
    r
}

/// The texts that hold a list of values in a format. ID3v2.4 allows only one user text frame per
/// description, and its multi-value field is one frame with NUL-separated values; the other
/// formats have one item per value.
pub open spec fn stored(tag_type: TagType, values: Seq<Seq<char>>) -> Seq<Seq<char>> {
    if tag_type == TagType::Id3v2 {
        seq![join(values, seq!['\0'])]
    } else {
        values
    }
}

/// Texts as items under an unknown key.
pub open spec fn items_under(key: Seq<char>, texts: Seq<Seq<char>>) -> Seq<
    (Key, Option<Seq<char>>),
> {
    texts.map_values(|t: Seq<char>| (Key::Unknown(key), Some(t)))
}

/// The items of a tag once the texts under an unknown key are replaced.
pub open spec fn with_texts(
    items: Seq<(Key, Option<Seq<char>>)>,
    key: Seq<char>,
    texts: Seq<Seq<char>>,
) -> Seq<(Key, Option<Seq<char>>)> {
    items.filter(not_under(key)) + items_under(key, texts)
}

/// Puts the values in a tag, in ascending order and each once, in place of what was there under
/// the same name.
pub fn write_playlist_tag(tag: &mut Tag, tag_type: TagType, values: &Vec<String>, tag_name: &str)
    ensures
        exists|sorted: Seq<Seq<char>>|
            {
                &&& #[trigger] is_set_of(sorted, views(values@))
                &&& tag_items(*final(tag)) == with_texts(
                    tag_items(*old(tag)),
                    key_name(tag_type, tag_name@),
                    stored(tag_type, sorted),
                )
            },
{
    let ghost given = tag_items(*tag);
    let key = key_for(tag_type, tag_name);
    let sorted = sorted_values(values);
    let texts = match tag_type {
        TagType::Id3v2 => {
            proof {
                reveal_strlit("\0");
                assert("\0"@ =~= seq!['\0']);
            }
            let joined = join_texts(&sorted, "\0");
            let mut one: Vec<String> = Vec::new();
            one.push(joined);
            assert(views(one@) =~= stored(tag_type, views(sorted@)));
            one
        },
        _ => {
            let mut each: Vec<String> = Vec::new();
            for i in 0..sorted.len()
                invariant
                    views(each@) == views(sorted@).take(i as int),
            {
                let ghost before = views(each@);
                each.push(sorted[i].clone());
                proof {
                    lemma_take_next(views(sorted@), i as int);
                    assert(views(each@) =~= before.push(views(sorted@)[i as int]));
                }
            }
            assert(views(each@) =~= views(sorted@));
            each
        },
    };
    let ghost all = views(texts@);
    remove_unknown(tag, key.as_str());
    assert(given.filter(not_under(key@)) + items_under(key@, all.take(0)) =~= given.filter(
        not_under(key@),
    ));
    for i in 0..texts.len()
        invariant
            all == views(texts@),
            tag_items(*tag) == with_texts(given, key@, all.take(i as int)),
    {
        push_unknown(tag, key.as_str(), texts[i].as_str());
        proof {
            lemma_take_next(all, i as int);
            assert(all[i as int] == texts@[i as int]@);
            assert(with_texts(given, key@, all.take(i as int).push(all[i as int]))
                =~= with_texts(given, key@, all.take(i as int)).push(
                (Key::Unknown(key@), Some(all[i as int])),
            ));
        }
    }
    assert(all.take(texts@.len() as int) =~= all);
}

/// The texts under an unknown key.
pub open spec fn texts_under(items: Seq<(Key, Option<Seq<char>>)>, key: Seq<char>) -> Seq<
    Option<Seq<char>>,
> {
    items.filter(|item: (Key, Option<Seq<char>>)| item.0 == Key::Unknown(key)).map_values(
        |item: (Key, Option<Seq<char>>)| item.1,
    )
}

/// Writing under a key makes its texts what was written, each once and in order, and leaves all
/// other items as they were.
pub proof fn law_written_texts_read_back(
    items: Seq<(Key, Option<Seq<char>>)>,
    key: Seq<char>,
    texts: Seq<Seq<char>>,
)
    ensures
        texts_under(with_texts(items, key, texts), key) == texts.map_values(
            |t: Seq<char>| Some(t),
        ),
        with_texts(items, key, texts).filter(not_under(key)) == items.filter(not_under(key)),
{
    let is_under = |item: (Key, Option<Seq<char>>)| item.0 == Key::Unknown(key);
    let kept = items.filter(not_under(key));
    let added = items_under(key, texts);
    Seq::filter_distributes_over_add(kept, added, is_under);
    Seq::filter_distributes_over_add(kept, added, not_under(key));
    assert forall|i: int| 0 <= i < kept.len() implies not_under(key)(#[trigger] kept[i]) by {
        items.lemma_filter_pred(not_under(key), i);
    }
    lemma_filter_none(kept, is_under);
    lemma_filter_all(kept, not_under(key));
    lemma_filter_all(added, is_under);
    lemma_filter_none(added, not_under(key));
    assert(kept.filter(is_under) + added.filter(is_under) =~= added);
    assert(kept + Seq::empty() =~= kept);
    assert(added.map_values(|item: (Key, Option<Seq<char>>)| item.1) =~= texts.map_values(
        |t: Seq<char>| Some(t),
    ));
}

/// Rewriting replaces rather than accumulates: only the last texts written under a key are left.
pub proof fn law_rewriting_replaces(
    items: Seq<(Key, Option<Seq<char>>)>,
    key: Seq<char>,
    first: Seq<Seq<char>>,
    second: Seq<Seq<char>>,
)
    ensures
        with_texts(with_texts(items, key, first), key, second) == with_texts(items, key, second),
{
    law_written_texts_read_back(items, key, first);
}

/// A list that is in ascending order and has nothing twice is written as it is.
pub proof fn law_ascending_values_stay(values: Seq<Seq<char>>, sorted: Seq<Seq<char>>)
    requires
        strictly_ascending(values),
        is_set_of(sorted, values),
    ensures
        sorted == values,
{
    lemma_set_is_unique(sorted, values, values);
}

/// In ID3v2 the values of a tag are one text, from which they come apart again.
pub proof fn law_id3_values_read_back(values: Seq<Seq<char>>)
    requires
        values.len() > 0,
        forall|i: int| 0 <= i < values.len() ==> !(#[trigger] values[i]).contains('\0'),
    ensures
        stored(TagType::Id3v2, values).len() == 1,
        split(stored(TagType::Id3v2, values)[0], Separator::Char('\0')) == values,
{
    lemma_split_join(values, '\0');
}

/// A filter that nothing passes leaves nothing.
proof fn lemma_filter_none<A>(s: Seq<A>, p: spec_fn(A) -> bool)
    requires
        forall|i: int| 0 <= i < s.len() ==> !p(#[trigger] s[i]),
    ensures
        s.filter(p) == Seq::<A>::empty(),
    decreases s.len(),
{
    reveal(Seq::filter);
    if s.len() > 0 {
        lemma_filter_none(s.drop_last(), p);
    } else {
        assert(s =~= Seq::empty());
    }
}

/// Whether the first item under a key is at a place.
pub open spec fn is_first_under(items: Seq<(Key, Option<Seq<char>>)>, key: Key, i: int) -> bool {
    &&& 0 <= i < items.len()
    &&& items[i].0 == key
    &&& forall|j: int| 0 <= j < i ==> (#[trigger] items[j]).0 != key
}

/// Whether a tag has no item under a key.
pub open spec fn has_none_under(items: Seq<(Key, Option<Seq<char>>)>, key: Key) -> bool {
    forall|j: int| 0 <= j < items.len() ==> (#[trigger] items[j]).0 != key
}

proof fn lemma_first_text(items: Seq<(Key, Option<Seq<char>>)>, key: Key, i: int)
    ensures
        is_first_under(items, key, i) ==> first_text(items, key) == items[i].1,
        has_none_under(items, key) ==> first_text(items, key) is None,
    decreases items.len(),
{
    if items.len() > 0 && items[0].0 != key {
        let rest = items.skip(1);
        assert(forall|j: int| 0 <= j < rest.len() ==> #[trigger] rest[j] == items[j + 1]);
        lemma_first_text(rest, key, i - 1);
        if is_first_under(items, key, i) {
            assert(is_first_under(rest, key, i - 1));
        }
        if has_none_under(items, key) {
            assert(has_none_under(rest, key));
        }
    }
}

/// The track artist is the artist wherever it is not empty, whatever other items the tag has.
pub proof fn law_track_artist_comes_first(
    items: Seq<(Key, Option<Seq<char>>)>,
    i: int,
    duration_ns: nat,
)
    requires
        is_first_under(items, Key::TrackArtist, i),
        items[i].1 matches Some(artist) && artist.len() > 0,
    ensures
        items[i].1 == Some(tags_of(items, duration_ns).artist),
{
    lemma_first_text(items, Key::TrackArtist, i);
}

/// The album artist stands in where the track artist is missing or empty. Where that is missing
/// too, there is no artist.
pub proof fn law_album_artist_stands_in(
    items: Seq<(Key, Option<Seq<char>>)>,
    i: int,
    k: int,
    duration_ns: nat,
)
    requires
        has_none_under(items, Key::TrackArtist) || (is_first_under(items, Key::TrackArtist, i) && (
        items[i].1 is None || items[i].1->Some_0.len() == 0)),
    ensures
        is_first_under(items, Key::AlbumArtist, k) && items[k].1 is Some ==> tags_of(
            items,
            duration_ns,
        ).artist == items[k].1->Some_0,
        has_none_under(items, Key::AlbumArtist) ==> tags_of(items, duration_ns).artist.len() == 0,
{
    lemma_first_text(items, Key::TrackArtist, i);
    lemma_first_text(items, Key::AlbumArtist, k);
}

/// The title is that of the first title item, the ISRC the normalised one of the first ISRC item,
/// and both are empty where there is no such item. The length is the one that was measured.
pub proof fn law_title_and_isrc_are_read(
    items: Seq<(Key, Option<Seq<char>>)>,
    i: int,
    duration_ns: nat,
)
    ensures
        is_first_under(items, Key::TrackTitle, i) && items[i].1 is Some ==> tags_of(
            items,
            duration_ns,
        ).title == items[i].1->Some_0,
        has_none_under(items, Key::TrackTitle) ==> tags_of(items, duration_ns).title.len() == 0,
        is_first_under(items, Key::TrackTitle, i) && items[i].1 is None ==> tags_of(
            items,
            duration_ns,
        ).title.len() == 0,
        is_first_under(items, Key::Isrc, i) && items[i].1 is Some ==> tags_of(
            items,
            duration_ns,
        ).isrc == bare_isrc(items[i].1->Some_0),
        has_none_under(items, Key::Isrc) ==> tags_of(items, duration_ns).isrc.len() == 0,
        tags_of(items, duration_ns).duration_ns == duration_ns,
{
    lemma_first_text(items, Key::TrackTitle, i);
    lemma_first_text(items, Key::Isrc, i);
    assert(bare_isrc(Seq::empty()).len() == 0) by {
        reveal(Seq::filter);
    }
}

/// Writing the playlists of a file changes nothing that it is matched by.
pub proof fn law_writing_keeps_what_is_matched_by(
    items: Seq<(Key, Option<Seq<char>>)>,
    key: Seq<char>,
    texts: Seq<Seq<char>>,
    duration_ns: nat,
)
    ensures
        tags_of(with_texts(items, key, texts), duration_ns) == tags_of(items, duration_ns),
{
    lemma_text_stays(items, key, texts, Key::TrackArtist);
    lemma_text_stays(items, key, texts, Key::AlbumArtist);
    lemma_text_stays(items, key, texts, Key::TrackTitle);
    lemma_text_stays(items, key, texts, Key::Isrc);
}

proof fn lemma_text_stays(
    items: Seq<(Key, Option<Seq<char>>)>,
    key: Seq<char>,
    texts: Seq<Seq<char>>,
    other: Key,
)
    requires
        !(other is Unknown),
    ensures
        first_text(with_texts(items, key, texts), other) == first_text(items, other),
    decreases items.len(),
{
    let added = items_under(key, texts);
    if items.len() == 0 {
        reveal(Seq::filter);
        assert(with_texts(items, key, texts) =~= added);
        assert(has_none_under(added, other));
        lemma_first_text(added, other, 0);
    } else {
        let rest = items.skip(1);
        let one = seq![items[0]];
        assert(items =~= one + rest);
        Seq::filter_distributes_over_add(one, rest, not_under(key));
        lemma_text_stays(rest, key, texts, other);
        if not_under(key)(items[0]) {
            lemma_filter_all(one, not_under(key));
            let all = with_texts(items, key, texts);
            assert(all.skip(1) =~= with_texts(rest, key, texts));
            assert(all[0] == items[0]);
        } else {
            lemma_filter_none(one, not_under(key));
            assert(with_texts(items, key, texts) =~= with_texts(rest, key, texts));
        }
    }
}

/// Only MP4 needs the freeform spelling of a key, and no format mixes up two tags.
pub proof fn law_keys_of_formats(tag_type: TagType, name: Seq<char>, other: Seq<char>)
    ensures
        tag_type != TagType::Mp4Ilst ==> key_name(tag_type, name) == name,
        key_name(TagType::Mp4Ilst, name) == "----:com.apple.iTunes:"@ + name,
        key_name(tag_type, name) == key_name(tag_type, other) ==> name == other,
{
    if tag_type == TagType::Mp4Ilst && key_name(tag_type, name) == key_name(tag_type, other) {
        let n = "----:com.apple.iTunes:"@.len() as int;
        assert(key_name(tag_type, name).skip(n) =~= name);
        assert(key_name(tag_type, other).skip(n) =~= other);
    }
}

/// Every value of a tag reads back from what was written, in order and each once: in ID3v2 from
/// the one text that holds them all, in every other format from a text of its own.
pub proof fn law_every_value_reads_back(
    items: Seq<(Key, Option<Seq<char>>)>,
    tag_type: TagType,
    name: Seq<char>,
    values: Seq<Seq<char>>,
)
    requires
        values.len() > 0,
        forall|i: int| 0 <= i < values.len() ==> !(#[trigger] values[i]).contains('\0'),
    ensures
        ({
            let key = key_name(tag_type, name);
            let read = texts_under(with_texts(items, key, stored(tag_type, values)), key);
            if tag_type == TagType::Id3v2 {
                &&& read.len() == 1
                &&& read[0] is Some
                &&& split(read[0]->Some_0, Separator::Char('\0')) == values
            } else {
                &&& read.len() == values.len()
                &&& forall|i: int| 0 <= i < read.len() ==> #[trigger] read[i] == Some(values[i])
            }
        }),
{
    let key = key_name(tag_type, name);
    law_written_texts_read_back(items, key, stored(tag_type, values));
    law_id3_values_read_back(values);
}

/// What is said of a file is what was read from it, field by field.
pub proof fn law_file_tags_say_what_was_read(tags: FileTags)
    ensures
        tags@.artist == tags.artist@,
        tags@.title == tags.title@,
        tags@.isrc == tags.isrc@,
        tags@.duration_ns == tags.duration_ns,
{
}

} // verus!
