use std::io::Cursor;

use lofty::config::WriteOptions;
use lofty::file::{AudioFile, TaggedFileExt};
use lofty::probe::Probe;
use lofty::tag::{Accessor, ItemKey, ItemValue, Tag, TagItem};
use navidrome_import::tags::{key_for, read_tags, sorted_values, write_playlist_tag, TagType};

fn texts(items: &[&str]) -> Vec<String> {
    items.iter().map(|s| s.to_string()).collect()
}

/// A WAV file with a few samples of silence.
fn wav() -> Vec<u8> {
    let mut bytes = Vec::new();
    bytes.extend_from_slice(b"RIFF");
    bytes.extend_from_slice(&(36u32 + 16).to_le_bytes());
    bytes.extend_from_slice(b"WAVEfmt ");
    bytes.extend_from_slice(&16u32.to_le_bytes());
    bytes.extend_from_slice(&1u16.to_le_bytes());
    bytes.extend_from_slice(&1u16.to_le_bytes());
    bytes.extend_from_slice(&8000u32.to_le_bytes());
    bytes.extend_from_slice(&8000u32.to_le_bytes());
    bytes.extend_from_slice(&1u16.to_le_bytes());
    bytes.extend_from_slice(&8u16.to_le_bytes());
    bytes.extend_from_slice(b"data");
    bytes.extend_from_slice(&16u32.to_le_bytes());
    bytes.extend_from_slice(&[128; 16]);
    bytes
}

/// A FLAC file that describes a stream and holds no frame.
fn flac() -> Vec<u8> {
    let mut bytes = Vec::new();
    bytes.extend_from_slice(b"fLaC");
    bytes.extend_from_slice(&[0, 0, 0, 34]);
    bytes.extend_from_slice(&4096u16.to_be_bytes());
    bytes.extend_from_slice(&4096u16.to_be_bytes());
    bytes.extend_from_slice(&[0; 6]);
    // 44100 Hz, two channels, 16 bits, no known number of samples.
    bytes.extend_from_slice(&[0x0a, 0xc4, 0x42, 0xf0, 0, 0, 0, 0]);
    bytes.extend_from_slice(&[0; 16]);
    // Padding, as the last block.
    bytes.extend_from_slice(&[0x81, 0, 0, 16]);
    bytes.extend_from_slice(&[0; 16]);
    bytes
}

fn kind(tag_type: lofty::tag::TagType) -> TagType {
    match tag_type {
        lofty::tag::TagType::Id3v2 => TagType::Id3v2,
        lofty::tag::TagType::VorbisComments => TagType::VorbisComments,
        lofty::tag::TagType::Mp4Ilst => TagType::Mp4Ilst,
        other => panic!("{other:?}"),
    }
}

fn write_to(bytes: Vec<u8>, values: &[String], tag_name: &str) -> Vec<u8> {
    let mut tagged = Probe::new(Cursor::new(bytes.clone())).guess_file_type().unwrap().read().unwrap();
    let tag_type = tagged.primary_tag_type();
    if tagged.primary_tag().is_none() {
        tagged.insert_tag(Tag::new(tag_type));
    }
    let tag = tagged.primary_tag_mut().unwrap();
    write_playlist_tag(tag, kind(tag_type), &values.to_vec(), tag_name);
    let mut file = Cursor::new(bytes);
    tagged.save_to(&mut file, WriteOptions::default()).unwrap();
    file.into_inner()
}

/// Minimal ID3v2.4 TXXX reader, straight off the bytes. Panics if more than one TXXX carries the
/// description, which ID3v2.4 forbids.
fn id3v2_user_text(file: &[u8], description: &str) -> Vec<String> {
    let start = file.windows(4).position(|w| w == b"ID3\x04").expect("no ID3v2.4 tag");
    let bytes = &file[start..];
    let syncsafe = |b: &[u8]| -> usize {
        ((b[0] as usize) << 21) | ((b[1] as usize) << 14) | ((b[2] as usize) << 7) | b[3] as usize
    };
    let end = 10 + syncsafe(&bytes[6..10]);
    let mut pos = 10;
    let mut out = Vec::new();
    let mut matches = 0;
    while pos + 10 <= end {
        let id = &bytes[pos..pos + 4];
        if id == b"\0\0\0\0" {
            break;
        }
        let size = syncsafe(&bytes[pos + 4..pos + 8]);
        let body = &bytes[pos + 10..pos + 10 + size];
        pos += 10 + size;
        if id != b"TXXX" {
            continue;
        }
        assert_eq!(body[0], 3);
        let rest = &body[1..];
        let nul = rest.iter().position(|&b| b == 0).unwrap();
        if std::str::from_utf8(&rest[..nul]).unwrap() != description {
            continue;
        }
        matches += 1;
        out = std::str::from_utf8(&rest[nul + 1..])
            .unwrap()
            .split('\0')
            .filter(|s| !s.is_empty())
            .map(str::to_string)
            .collect();
    }
    assert!(matches <= 1, "{matches} TXXX frames share the description {description:?}");
    out
}

fn read_back(file: &[u8], tag_name: &str) -> Vec<String> {
    let tagged = Probe::new(Cursor::new(file.to_vec())).guess_file_type().unwrap().read().unwrap();
    let tag_type = tagged.primary_tag_type();
    if tag_type == lofty::tag::TagType::Id3v2 {
        return id3v2_user_text(file, tag_name);
    }
    let key = ItemKey::Unknown(key_for(kind(tag_type), tag_name));
    tagged.primary_tag().unwrap().get_strings(&key).map(str::to_string).collect()
}

#[test]
fn writes_every_value_of_a_multi_value_tag() {
    let values: Vec<String> = ["Gym", "Party", "Road Trip"].iter().map(|s| s.to_string()).collect();
    for file in [wav(), flac()] {
        let written = write_to(file, &values, "PLAYLIST");
        assert_eq!(read_back(&written, "PLAYLIST"), values);
    }
}

/// A track dropped from a playlist has to lose that value, so rewriting must replace rather than
/// accumulate.
#[test]
fn rewriting_replaces_previous_values() {
    let many: Vec<String> = ["Gym", "Party", "Road Trip"].iter().map(|s| s.to_string()).collect();
    let one = vec!["Solo".to_string()];
    for file in [wav(), flac()] {
        let written = write_to(file, &many, "PLAYLIST");
        let rewritten = write_to(written, &one, "PLAYLIST");
        assert_eq!(read_back(&rewritten, "PLAYLIST"), one);
    }
}

#[test]
fn mp4_needs_a_freeform_key_but_nothing_else_does() {
    assert_eq!(
        ItemKey::Unknown(key_for(TagType::Mp4Ilst, "PLAYLIST")),
        ItemKey::Unknown("----:com.apple.iTunes:PLAYLIST".to_string())
    );
    assert_eq!(
        ItemKey::Unknown(key_for(TagType::VorbisComments, "PLAYLIST")),
        ItemKey::Unknown("PLAYLIST".to_string())
    );
}

#[test]
fn values_are_sorted_and_written_once() {
    assert_eq!(sorted_values(&texts(&["b", "a", "b"])), texts(&["a", "b"]));
    let mut tag = Tag::new(lofty::tag::TagType::Mp4Ilst);
    write_playlist_tag(&mut tag, TagType::Mp4Ilst, &texts(&["b", "a", "b"]), "PLAYLIST");
    let key = ItemKey::Unknown("----:com.apple.iTunes:PLAYLIST".to_string());
    assert_eq!(tag.get_strings(&key).collect::<Vec<_>>(), ["a", "b"]);
    assert_eq!(tag.item_count(), 2);
}

#[test]
fn id3_values_are_one_text() {
    let mut tag = Tag::new(lofty::tag::TagType::Id3v2);
    write_playlist_tag(&mut tag, TagType::Id3v2, &texts(&["Road Trip", "Gym"]), "PLAYLIST");
    let key = ItemKey::Unknown("PLAYLIST".to_string());
    assert_eq!(tag.get_strings(&key).collect::<Vec<_>>(), ["Gym\0Road Trip"]);
}

#[test]
fn other_items_stay() {
    let mut tag = Tag::new(lofty::tag::TagType::VorbisComments);
    tag.set_title("Song".to_string());
    tag.push_unchecked(TagItem::new(
        ItemKey::Unknown("OTHER".to_string()),
        ItemValue::Text("kept".to_string()),
    ));
    write_playlist_tag(&mut tag, TagType::VorbisComments, &texts(&["Gym"]), "PLAYLIST");
    write_playlist_tag(&mut tag, TagType::VorbisComments, &texts(&["Solo"]), "PLAYLIST");
    assert_eq!(tag.title().as_deref(), Some("Song"));
    assert_eq!(tag.get_string(&ItemKey::Unknown("OTHER".to_string())), Some("kept"));
    assert_eq!(tag.get_string(&ItemKey::Unknown("PLAYLIST".to_string())), Some("Solo"));
    assert_eq!(tag.item_count(), 3);
}

#[test]
fn artist_falls_back_to_the_album_artist() {
    let mut tag = Tag::new(lofty::tag::TagType::VorbisComments);
    tag.insert_text(ItemKey::AlbumArtist, "Various".to_string());
    tag.insert_text(ItemKey::Isrc, "us-rc1-23-45678".to_string());
    tag.set_title("Song".to_string());
    let read = read_tags(&tag, 1_500_000_000);
    assert_eq!(read.artist, "Various");
    assert_eq!(read.title, "Song");
    assert_eq!(read.isrc, "USRC12345678");
    assert_eq!(read.duration_ns, 1_500_000_000);
    tag.push_unchecked(TagItem::new(ItemKey::TrackArtist, ItemValue::Text(String::new())));
    assert_eq!(read_tags(&tag, 0).artist, "Various");
    tag.set_artist("Someone".to_string());
    assert_eq!(read_tags(&tag, 0).artist, "Someone");
}

#[test]
fn missing_items_read_as_empty() {
    let read = read_tags(&Tag::new(lofty::tag::TagType::VorbisComments), 0);
    assert_eq!((read.artist.as_str(), read.title.as_str(), read.isrc.as_str()), ("", "", ""));
}
