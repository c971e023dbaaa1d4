//! An index of the audio files under the library root.
//!
//! Two lookup tables, by ISRC and by normalised `artist|title`, plus the flat key list that the
//! fuzzy fallback sweeps. A file goes by its place in the list of files that were found.

use vstd::hash_map::StringHashMap;
use vstd::prelude::*;

use crate::matching::{key, key_of};
use crate::sources::{
    extension_of, law_file_name_is_the_last_part, law_kind_goes_by_extension, lower_extension,
};
use crate::tags::{FileTags, FileTagsView};
use crate::text::{lemma_push_contains, lemma_take_next, same_text, to_lower, views};

verus! {

/// The extensions of audio files.
pub open spec fn audio_extensions() -> Seq<Seq<char>> {
    seq![
        "flac"@,
        "mp3"@,
        "m4a"@,
        "mp4"@,
        "ogg"@,
        "opus"@,
        "wav"@,
        "aiff"@,
        "wv"@,
    ]
}

/// Whether a path has the extension of an audio file, whatever the case.
pub open spec fn names_audio(path: Seq<char>) -> bool {
    lower_extension(path) matches Some(ext) && audio_extensions().contains(ext)
}

/// Whether a path has the extension of an audio file, whatever the case.
pub fn is_audio(path: &str) -> (r: bool)
    ensures
        r == names_audio(path@),
{
    let ext = match extension_of(path) {
        Some(ext) => ext,
        None => {
            return false;
        },
    };
    let known: Vec<&'static str> = vec![
        "flac",
        "mp3",
        "m4a",
        "mp4",
        "ogg",
        "opus",
        "wav",
        "aiff",
        "wv",
    ];
    let ghost all = audio_extensions();
    assert(all =~= known@.map_values(|k: &str| k@));
    for i in 0..known.len()
        invariant
            lower_extension(path@) == Some(ext@),
            all == audio_extensions(),
            all == known@.map_values(|k: &str| k@),
            forall|j: int| 0 <= j < i ==> ext@ != #[trigger] all[j],
    {
        assert(all[i as int] == known@[i as int]@);
        if same_text(ext.as_str(), known[i]) {
            assert(all.contains(ext@));
            return true;
        }
    }
    false
}

/// A file that goes by some key.
#[derive(Clone, Copy, Debug)]
pub struct Entry {
    /// Its place in the list of files.
    pub file: usize,
    /// Nanoseconds. 0 when the format did not report one.
    pub duration_ns: u128,
}

/// The index.
pub struct Library {
    pub by_isrc: StringHashMap<usize>,
    pub by_key: StringHashMap<Vec<Entry>>,
    /// Deduplicated, insertion-ordered; the fuzzy fallback iterates this.
    pub keys: Vec<String>,
    pub files_seen: usize,
    pub unreadable: usize,
}

/// What a file is indexed under.
#[verifier::ext_equal]
pub struct Filed {
    /// The normalised `artist|title`; none where there is no title.
    pub key: Option<Seq<char>>,
    pub isrc: Seq<char>,
    pub duration_ns: nat,
}

/// What a file is indexed under. A file that could not be read is not indexed. One with no title
/// cannot be matched by anything but its ISRC: an empty key would collide with every other
/// untitled file.
pub open spec fn filed(tags: Option<FileTagsView>) -> Option<Filed> {
    match tags {
        Some(t) => Some(
            Filed {
                key: if t.title.len() > 0 {
                    Some(key_of(t.artist, t.title))
                } else {
                    None
                },
                isrc: t.isrc,
                duration_ns: t.duration_ns,
            },
        ),
        None => None,
    }
}

/// The first file with an ISRC.
pub open spec fn isrc_file(files: Seq<Option<Filed>>, isrc: Seq<char>) -> Option<int>
    decreases files.len(),
{
    if files.len() == 0 || isrc.len() == 0 {
        None
    } else {
        match isrc_file(files.drop_last(), isrc) {
            Some(i) => Some(i),
            None => match files.last() {
                Some(f) if f.isrc == isrc => Some(files.len() - 1),
                _ => None,
            },
        }
    }
}

/// The files with a key, in order, each with its duration.
pub open spec fn key_entries(files: Seq<Option<Filed>>, key: Seq<char>) -> Seq<(int, nat)>
    decreases files.len(),
{
    if files.len() == 0 {
        Seq::empty()
    } else {
        let before = key_entries(files.drop_last(), key);
        match files.last() {
            Some(f) if f.key == Some(key) => before.push((files.len() - 1, f.duration_ns)),
            _ => before,
        }
    }
}

/// The keys of files, each once, in the order in which they first occur.
pub open spec fn distinct_keys(files: Seq<Option<Filed>>) -> Seq<Seq<char>>
    decreases files.len(),
{
    if files.len() == 0 {
        Seq::empty()
    } else {
        let before = distinct_keys(files.drop_last());
        match files.last() {
            Some(f) => match f.key {
                Some(key) if !before.contains(key) => before.push(key),
                _ => before,
            },
            None => before,
        }
    }
}

/// Entries in numbers without bound.
pub open spec fn entry_views(entries: Seq<Entry>) -> Seq<(int, nat)> {
    entries.map_values(|e: Entry| (e.file as int, e.duration_ns as nat))
}

impl Library {
    /// The index of some files.
    pub open spec fn holds(self, files: Seq<Option<Filed>>) -> bool {
        &&& forall|s: Seq<char>|
            #[trigger] self.by_isrc@.contains_key(s) <==> isrc_file(files, s) is Some
        &&& forall|s: Seq<char>|
            #[trigger] self.by_isrc@.contains_key(s) ==> isrc_file(files, s) == Some(
                self.by_isrc@[s] as int,
            )
        &&& views(self.keys@) == distinct_keys(files)
        &&& forall|k: Seq<char>|
            #[trigger] self.by_key@.contains_key(k) <==> distinct_keys(files).contains(k)
        &&& forall|k: Seq<char>|
            #[trigger] self.by_key@.contains_key(k) ==> entry_views(self.by_key@[k]@)
                == key_entries(files, k)
    }

    /// The tables agree: the key list has every key once, every key has a file, and every file is
    /// one of those that were seen.
    pub open spec fn wf(self) -> bool {
        &&& views(self.keys@).no_duplicates()
        &&& forall|k: Seq<char>|
            #[trigger] self.by_key@.contains_key(k) <==> views(self.keys@).contains(k)
        &&& forall|k: Seq<char>|
            #[trigger] self.by_key@.contains_key(k) ==> self.by_key@[k]@.len() > 0
        &&& forall|k: Seq<char>, i: int|
            self.by_key@.contains_key(k) && 0 <= i < self.by_key@[k]@.len() ==> (
            #[trigger] self.by_key@[k]@[i]).file < self.files_seen
        &&& forall|s: Seq<char>|
            #[trigger] self.by_isrc@.contains_key(s) ==> self.by_isrc@[s] < self.files_seen
    }

    /// The index of no file, with room for as many as were found.
    pub fn new(files_seen: usize) -> (r: Library)
        ensures
            r.holds(Seq::empty()),
            r.wf(),
            r.files_seen == files_seen,
            r.unreadable == 0,
    {
        let r = Library {
            by_isrc: StringHashMap::new(),
            by_key: StringHashMap::new(),
            keys: Vec::new(),
            files_seen,
            unreadable: 0,
        };
        assert(views(r.keys@) =~= Seq::empty());
        r
    }

    /// Indexes a file under its ISRC, if it has one. Of files with the same ISRC the first stays:
    /// duplicate ISRCs mean duplicate rips.
    pub fn add_isrc(&mut self, file: usize, isrc: &str)
        requires
            old(self).wf(),
            file < old(self).files_seen,
        ensures
            final(self).wf(),
            final(self).by_isrc@ == if isrc@.len() > 0 && !old(self).by_isrc@.contains_key(isrc@) {
                old(self).by_isrc@.insert(isrc@, file)
            } else {
                old(self).by_isrc@
            },
            final(self).by_key == old(self).by_key,
            final(self).keys == old(self).keys,
            final(self).files_seen == old(self).files_seen,
            final(self).unreadable == old(self).unreadable,
    {
        if !isrc.is_empty() && !self.by_isrc.contains_key(isrc) {
            self.by_isrc.insert(String::from_str(isrc), file);
        }
    }

    /// Indexes a file under its key.
    pub fn add_key(&mut self, entry: Entry, key: &str)
        requires
            old(self).wf(),
            entry.file < old(self).files_seen,
        ensures
            final(self).wf(),
            final(self).by_isrc == old(self).by_isrc,
            views(final(self).keys@) == if old(self).by_key@.contains_key(key@) {
                views(old(self).keys@)
            } else {
                views(old(self).keys@).push(key@)
            },
            forall|k: Seq<char>|
                #[trigger] final(self).by_key@.contains_key(k) <==> old(self).by_key@.contains_key(
                    k,
                ) || k == key@,
            forall|k: Seq<char>|
                k != key@ && old(self).by_key@.contains_key(k) ==> #[trigger] final(self).by_key@[k]
                    == old(self).by_key@[k],
            final(self).by_key@[key@]@ == if old(self).by_key@.contains_key(key@) {
                old(self).by_key@[key@]@.push(entry)
            } else {
                seq![entry]
            },
            final(self).files_seen == old(self).files_seen,
            final(self).unreadable == old(self).unreadable,
    {
        let mut entries: Vec<Entry> = match self.by_key.get(key) {
            Some(entries) => entries.clone(),
            None => {
                let ghost before = views(self.keys@);
                self.keys.push(String::from_str(key));
                proof {
                    assert(views(self.keys@) =~= before.push(key@));
                    assert(!before.contains(key@));
                    assert forall|k: Seq<char>| before.push(key@).contains(k) <==> before.contains(
                        k,
                    ) || k == key@ by {
                        lemma_push_contains(before, key@, k);
                    }
                }
                Vec::new()
            },
        };
        entries.push(entry);
        self.by_key.insert(String::from_str(key), entries);
    }
}

/// What several files are indexed under.
pub open spec fn all_filed(files: Seq<Option<FileTags>>) -> Seq<Option<Filed>> {
    files.map_values(|f: Option<FileTags>| filed(tags_view(f)))
}

/// What the tags of a file say, if it could be read.
pub open spec fn tags_view(tags: Option<FileTags>) -> Option<FileTagsView> {
    match tags {
        Some(t) => Some(t@),
        None => None,
    }
}

/// The files that could not be read.
pub open spec fn unreadable(files: Seq<Option<FileTags>>) -> nat
    decreases files.len(),
{
    if files.len() == 0 {
        0
    } else {
        unreadable(files.drop_last()) + if files.last() is None {
            1nat
        } else {
            0
        }
    }
}

/// Indexes files by what was read from them; nothing was read from a file that is unreadable.
pub fn index(files: &Vec<Option<FileTags>>) -> (r: Library)
    ensures
        r.holds(all_filed(files@)),
        r.wf(),
        r.files_seen == files@.len(),
        r.unreadable == unreadable(files@),
{
    let mut r = Library::new(files.len());
    let ghost all = all_filed(files@);
    assert(all.take(0) =~= Seq::empty());
    for i in 0..files.len()
        invariant
            all == all_filed(files@),
            r.holds(all.take(i as int)),
            r.wf(),
            r.files_seen == files@.len(),
            r.unreadable == unreadable(files@.take(i as int)),
            r.unreadable <= i,
    {
        let ghost some = all.take(i as int);
        proof {
            lemma_take_next(all, i as int);
            assert(files@.take(i + 1).drop_last() =~= files@.take(i as int));
            assert(some.push(all[i as int]).drop_last() =~= some);
            assert(all[i as int] == filed(tags_view(files@[i as int])));
        }
        match &files[i] {
            None => {
                r.unreadable = r.unreadable + 1;
                assert(r.holds(some.push(all[i as int])));
            },
            Some(tags) => {
                let ghost before = r;
                r.add_isrc(i, tags.isrc.as_str());
                let entry = Entry { file: i, duration_ns: tags.duration_ns };
                if !tags.title.as_str().is_empty() {
                    let name = key(tags.artist.as_str(), tags.title.as_str());
                    r.add_key(entry, name.as_str());
                }
                proof {
                    lemma_holds_next(before, r, some, all[i as int]->Some_0, entry);
                }
            },
        }
    }
    assert(all.take(files@.len() as int) =~= all);
    assert(files@.take(files@.len() as int) =~= files@);
    r
}

/// The index of some files, with one more file added, is that of these files.
proof fn lemma_holds_next(
    before: Library,
    after: Library,
    files: Seq<Option<Filed>>,
    f: Filed,
    entry: Entry,
)
    requires
        before.holds(files),
        before.wf(),
        entry.file == files.len(),
        entry.duration_ns == f.duration_ns,
        after.by_isrc@ == if f.isrc.len() > 0 && !before.by_isrc@.contains_key(f.isrc) {
            before.by_isrc@.insert(f.isrc, entry.file)
        } else {
            before.by_isrc@
        },
        match f.key {
            Some(key) => {
                &&& views(after.keys@) == if before.by_key@.contains_key(key) {
                    views(before.keys@)
                } else {
                    views(before.keys@).push(key)
                }
                &&& forall|k: Seq<char>|
                    #[trigger] after.by_key@.contains_key(k) <==> before.by_key@.contains_key(k)
                        || k == key
                &&& forall|k: Seq<char>|
                    k != key && before.by_key@.contains_key(k) ==> #[trigger] after.by_key@[k]
                        == before.by_key@[k]
                &&& after.by_key@[key]@ == if before.by_key@.contains_key(key) {
                    before.by_key@[key]@.push(entry)
                } else {
                    seq![entry]
                }
            },
            None => after.keys == before.keys && after.by_key == before.by_key,
        },
    ensures
        after.holds(files.push(Some(f))),
{
    let more = files.push(Some(f));
    assert(more.drop_last() =~= files);
    assert forall|s: Seq<char>|
        #[trigger] after.by_isrc@.contains_key(s) <==> isrc_file(more, s) is Some by {
        assert(before.by_isrc@.contains_key(s) <==> isrc_file(files, s) is Some);
        if s.len() == 0 {
            assert(isrc_file(files, s) is None);
        }
    }
    assert forall|s: Seq<char>| #[trigger] after.by_isrc@.contains_key(s) implies isrc_file(more, s)
        == Some(after.by_isrc@[s] as int) by {
        assert(before.by_isrc@.contains_key(s) <==> isrc_file(files, s) is Some);
    }
    if let Some(key) = f.key {
        assert(before.by_key@.contains_key(key) <==> distinct_keys(files).contains(key));
        assert forall|k: Seq<char>|
            #[trigger] after.by_key@.contains_key(k) <==> distinct_keys(more).contains(k) by {
            assert(before.by_key@.contains_key(k) <==> distinct_keys(files).contains(k));
            lemma_push_contains(distinct_keys(files), key, k);
        }
        assert forall|k: Seq<char>| #[trigger] after.by_key@.contains_key(k) implies entry_views(
            after.by_key@[k]@,
        ) == key_entries(more, k) by {
            assert(before.by_key@.contains_key(k) <==> distinct_keys(files).contains(k));
            if k == key {
                if !before.by_key@.contains_key(k) {
                    lemma_no_entries(files, k);
                }
                assert(entry_views(after.by_key@[k]@) =~= key_entries(more, k));
            } else {
                assert(after.by_key@[k] == before.by_key@[k]);
            }
        }
    }
}

/// A key that no file has, has no entries.
proof fn lemma_no_entries(files: Seq<Option<Filed>>, key: Seq<char>)
    requires
        !distinct_keys(files).contains(key),
    ensures
        key_entries(files, key).len() == 0,
    decreases files.len(),
{
    if files.len() > 0 {
        let before = distinct_keys(files.drop_last());
        if let Some(f) = files.last() {
            if let Some(k) = f.key {
                lemma_push_contains(before, k, key);
                lemma_push_contains(before, k, k);
            }
        }
        lemma_no_entries(files.drop_last(), key);
    }
}

/// First writer wins: a file that comes later does not change which file an ISRC stands for.
pub proof fn law_first_isrc_wins(files: Seq<Option<Filed>>, later: Option<Filed>, isrc: Seq<char>)
    requires
        isrc_file(files, isrc) is Some,
    ensures
        isrc_file(files.push(later), isrc) == isrc_file(files, isrc),
{
    assert(files.push(later).drop_last() =~= files);
}

/// A file with no title can be found by its ISRC and by nothing else: it makes no key and is an
/// entry of none, and its ISRC stands for it where no file before it has the same.
pub proof fn law_untitled_file_is_found_by_isrc(
    files: Seq<Option<Filed>>,
    tags: FileTagsView,
    key: Seq<char>,
)
    requires
        tags.title.len() == 0,
    ensures
        distinct_keys(files.push(filed(Some(tags)))) == distinct_keys(files),
        key_entries(files.push(filed(Some(tags))), key) == key_entries(files, key),
        tags.isrc.len() > 0 && isrc_file(files, tags.isrc) is None ==> isrc_file(
            files.push(filed(Some(tags))),
            tags.isrc,
        ) == Some(files.len() as int),
{
    assert(files.push(filed(Some(tags))).drop_last() =~= files);
}

/// The key list has no key twice, has every key that a file has, and keeps its order when a file
/// is added.
pub proof fn law_keys_are_distinct_and_ordered(files: Seq<Option<Filed>>, later: Option<Filed>)
    ensures
        distinct_keys(files).no_duplicates(),
        forall|i: int|
            0 <= i < files.len() && (#[trigger] files[i]) is Some && files[i]->Some_0.key is Some
                ==> distinct_keys(files).contains(files[i]->Some_0.key->Some_0),
        distinct_keys(files).is_prefix_of(distinct_keys(files.push(later))),
    decreases files.len(),
{
    assert(files.push(later).drop_last() =~= files);
    if files.len() > 0 {
        let front = files.drop_last();
        let before = distinct_keys(front);
        law_keys_are_distinct_and_ordered(front, later);
        assert forall|i: int|
            0 <= i < files.len() && (#[trigger] files[i]) is Some && files[i]->Some_0.key is Some
            implies distinct_keys(files).contains(files[i]->Some_0.key->Some_0) by {
            let k = files[i]->Some_0.key->Some_0;
            if i < front.len() {
                assert(front[i] == files[i]);
                assert(before.contains(k));
                if let Some(f) = files.last() {
                    if let Some(last) = f.key {
                        lemma_push_contains(before, last, k);
                    }
                }
            } else {
                lemma_push_contains(before, k, k);
            }
        }
    }
}

/// Whether a file has an ISRC.
pub open spec fn has_isrc(file: Option<Filed>, isrc: Seq<char>) -> bool {
    file is Some && file->Some_0.isrc == isrc
}

/// Whether a file has a key.
pub open spec fn has_key(file: Option<Filed>, key: Seq<char>) -> bool {
    file is Some && file->Some_0.key == Some(key)
}

/// An ISRC stands for the first file that has it, and for none if and only if no file has it or it
/// is empty.
pub proof fn law_isrc_stands_for_its_first_file(files: Seq<Option<Filed>>, isrc: Seq<char>)
    ensures
        match isrc_file(files, isrc) {
            Some(i) => {
                &&& isrc.len() > 0
                &&& 0 <= i < files.len()
                &&& has_isrc(files[i], isrc)
                &&& forall|j: int| 0 <= j < i ==> !has_isrc(#[trigger] files[j], isrc)
            },
            None => isrc.len() == 0 || forall|j: int|
                0 <= j < files.len() ==> !has_isrc(#[trigger] files[j], isrc),
        },
    decreases files.len(),
{
    if files.len() > 0 && isrc.len() > 0 {
        let front = files.drop_last();
        law_isrc_stands_for_its_first_file(front, isrc);
        assert(forall|j: int| 0 <= j < front.len() ==> #[trigger] front[j] == files[j]);
        assert(files.last() == files[files.len() - 1]);
        match isrc_file(front, isrc) {
            Some(i) => {
                assert(files[i] == front[i]);
                assert forall|j: int| 0 <= j < i implies !has_isrc(#[trigger] files[j], isrc) by {
                    assert(!has_isrc(front[j], isrc));
                }
            },
            None => {
                assert forall|j: int| 0 <= j < front.len() implies !has_isrc(
                    #[trigger] files[j],
                    isrc,
                ) by {
                    assert(!has_isrc(front[j], isrc));
                }
            },
        }
    }
}

/// The entries of a key are the files that have it, each once, in order and with its duration.
pub proof fn law_entries_are_the_files_with_the_key(files: Seq<Option<Filed>>, key: Seq<char>)
    ensures
        forall|k: int|
            0 <= k < key_entries(files, key).len() ==> {
                let (i, duration) = #[trigger] key_entries(files, key)[k];
                &&& 0 <= i < files.len()
                &&& has_key(files[i], key)
                &&& files[i]->Some_0.duration_ns == duration
            },
        forall|k: int, m: int|
            0 <= k < m < key_entries(files, key).len() ==> (#[trigger] key_entries(files, key)[k]).0
                < (#[trigger] key_entries(files, key)[m]).0,
        forall|i: int|
            0 <= i < files.len() && has_key(#[trigger] files[i], key) ==> key_entries(
                files,
                key,
            ).contains((i, files[i]->Some_0.duration_ns)),
    decreases files.len(),
{
    if files.len() > 0 {
        let front = files.drop_last();
        let last = files.len() - 1;
        let before = key_entries(front, key);
        let all = key_entries(files, key);
        law_entries_are_the_files_with_the_key(front, key);
        assert forall|k: int| 0 <= k < all.len() implies {
            let (i, duration) = #[trigger] all[k];
            &&& 0 <= i < files.len()
            &&& has_key(files[i], key)
            &&& files[i]->Some_0.duration_ns == duration
        } by {
            if k < before.len() {
                assert(all[k] == before[k]);
                assert(front[before[k].0] == files[before[k].0]);
            }
        }
        assert forall|k: int, m: int| 0 <= k < m < all.len() implies (#[trigger] all[k]).0 < (
        #[trigger] all[m]).0 by {
            assert(all[k] == before[k]);
            if m < before.len() {
                assert(all[m] == before[m]);
            }
        }
        assert forall|i: int| 0 <= i < files.len() && has_key(
            #[trigger] files[i],
            key,
        ) implies all.contains((i, files[i]->Some_0.duration_ns)) by {
            let item = (i, files[i]->Some_0.duration_ns);
            if i < last {
                assert(front[i] == files[i]);
                assert(before.contains(item));
                if has_key(files[last], key) {
                    lemma_push_contains(before, (last, files[last]->Some_0.duration_ns), item);
                }
            } else {
                lemma_push_contains(before, item, item);
            }
        }
    }
}

/// The key list has the keys of files and no others.
pub proof fn law_every_key_has_a_file(files: Seq<Option<Filed>>, key: Seq<char>)
    ensures
        distinct_keys(files).contains(key) <==> exists|i: int|
            0 <= i < files.len() && has_key(#[trigger] files[i], key),
    decreases files.len(),
{
    if files.len() > 0 {
        let front = files.drop_last();
        let last = files.len() - 1;
        let before = distinct_keys(front);
        law_every_key_has_a_file(front, key);
        if let Some(f) = files.last() {
            if let Some(k) = f.key {
                lemma_push_contains(before, k, key);
            }
        }
        if exists|i: int| 0 <= i < files.len() && has_key(#[trigger] files[i], key) {
            let i = choose|i: int| 0 <= i < files.len() && has_key(#[trigger] files[i], key);
            if i < last {
                assert(has_key(front[i], key));
            }
        }
        if exists|i: int| 0 <= i < front.len() && has_key(#[trigger] front[i], key) {
            let i = choose|i: int| 0 <= i < front.len() && has_key(#[trigger] front[i], key);
            assert(has_key(files[i], key));
        }
        if distinct_keys(files).contains(key) && !before.contains(key) {
            assert(has_key(files[last], key));
        }
    }
}

/// What is read from a file decides what it is indexed under: its own ISRC and length, and the key
/// of its own artist and title if it has a title.
pub proof fn law_file_is_indexed_under_its_own_names(tags: FileTagsView, s: Seq<char>)
    ensures
        has_isrc(filed(Some(tags)), s) <==> tags.isrc == s,
        has_key(filed(Some(tags)), s) <==> tags.title.len() > 0 && s == key_of(
            tags.artist,
            tags.title,
        ),
        filed(Some(tags)) matches Some(f) && f.duration_ns == tags.duration_ns,
        filed(None) is None,
{
}

/// The index of files has every file that was read: under its key if it has a title, with its own
/// length, and its ISRC stands for it or for a file before it with the same ISRC.
pub proof fn law_every_file_is_indexed(lib: Library, files: Seq<Option<FileTags>>, i: int)
    requires
        lib.holds(all_filed(files)),
        0 <= i < files.len(),
        files[i] is Some,
    ensures
        ({
            let tags = files[i]->Some_0@;
            let key = key_of(tags.artist, tags.title);
            &&& tags.title.len() > 0 ==> {
                &&& lib.by_key@.contains_key(key)
                &&& views(lib.keys@).contains(key)
                &&& exists|k: int|
                    {
                        &&& 0 <= k < lib.by_key@[key]@.len()
                        &&& (#[trigger] lib.by_key@[key]@[k]).file == i
                        &&& lib.by_key@[key]@[k].duration_ns == tags.duration_ns
                    }
            }
            &&& tags.isrc.len() > 0 ==> {
                &&& lib.by_isrc@.contains_key(tags.isrc)
                &&& lib.by_isrc@[tags.isrc] <= i
                &&& files[lib.by_isrc@[tags.isrc] as int] is Some
                &&& files[lib.by_isrc@[tags.isrc] as int]->Some_0@.isrc == tags.isrc
            }
        }),
{
    let all = all_filed(files);
    let tags = files[i]->Some_0@;
    let key = key_of(tags.artist, tags.title);
    assert(all[i] == filed(tags_view(files[i])));
    if tags.title.len() > 0 {
        assert(has_key(all[i], key));
        law_every_key_has_a_file(all, key);
        law_entries_are_the_files_with_the_key(all, key);
        assert(lib.by_key@.contains_key(key));
        let entries = lib.by_key@[key]@;
        assert(key_entries(all, key).contains((i, tags.duration_ns)));
        let k = choose|k: int|
            0 <= k < key_entries(all, key).len() && key_entries(all, key)[k] == (
                i,
                tags.duration_ns,
            );
        assert(entry_views(entries)[k] == (entries[k].file as int, entries[k].duration_ns as nat));
        assert(entries[k].file == i);
    }
    if tags.isrc.len() > 0 {
        law_isrc_stands_for_its_first_file(all, tags.isrc);
        assert(has_isrc(all[i], tags.isrc));
        assert(lib.by_isrc@.contains_key(tags.isrc));
        let first = lib.by_isrc@[tags.isrc] as int;
        assert(has_isrc(all[first], tags.isrc));
        assert(all[first] == filed(tags_view(files[first])));
        if i < first {
            assert(!has_isrc(all[i], tags.isrc));
        }
    }
}

/// The index has nothing but the files: an entry of a key is a file with that artist and title and
/// that length, and an ISRC stands for a file that has it.
pub proof fn law_index_has_only_files(lib: Library, files: Seq<Option<FileTags>>)
    requires
        lib.holds(all_filed(files)),
    ensures
        forall|key: Seq<char>, k: int|
            lib.by_key@.contains_key(key) && 0 <= k < lib.by_key@[key]@.len() ==> {
                let entry = #[trigger] lib.by_key@[key]@[k];
                &&& entry.file < files.len()
                &&& files[entry.file as int] is Some
                &&& files[entry.file as int]->Some_0@.title.len() > 0
                &&& key == key_of(
                    files[entry.file as int]->Some_0@.artist,
                    files[entry.file as int]->Some_0@.title,
                )
                &&& entry.duration_ns == files[entry.file as int]->Some_0@.duration_ns
            },
        forall|isrc: Seq<char>|
            #[trigger] lib.by_isrc@.contains_key(isrc) ==> {
                let file = lib.by_isrc@[isrc] as int;
                &&& isrc.len() > 0
                &&& file < files.len()
                &&& files[file] is Some
                &&& files[file]->Some_0@.isrc == isrc
            },
{
    let all = all_filed(files);
    assert forall|key: Seq<char>, k: int|
        lib.by_key@.contains_key(key) && 0 <= k < lib.by_key@[key]@.len() implies {
        let entry = #[trigger] lib.by_key@[key]@[k];
        &&& entry.file < files.len()
        &&& files[entry.file as int] is Some
        &&& files[entry.file as int]->Some_0@.title.len() > 0
        &&& key == key_of(
            files[entry.file as int]->Some_0@.artist,
            files[entry.file as int]->Some_0@.title,
        )
        &&& entry.duration_ns == files[entry.file as int]->Some_0@.duration_ns
    } by {
        let entries = lib.by_key@[key]@;
        law_entries_are_the_files_with_the_key(all, key);
        assert(entry_views(entries)[k] == (entries[k].file as int, entries[k].duration_ns as nat));
        assert(key_entries(all, key)[k] == (
            entries[k].file as int,
            entries[k].duration_ns as nat,
        ));
        assert(all[entries[k].file as int] == filed(tags_view(files[entries[k].file as int])));
    }
    assert forall|isrc: Seq<char>| #[trigger] lib.by_isrc@.contains_key(isrc) implies {
        let file = lib.by_isrc@[isrc] as int;
        &&& isrc.len() > 0
        &&& file < files.len()
        &&& files[file] is Some
        &&& files[file]->Some_0@.isrc == isrc
    } by {
        law_isrc_stands_for_its_first_file(all, isrc);
        let file = lib.by_isrc@[isrc] as int;
        assert(all[file] == filed(tags_view(files[file])));
    }
}

/// A file is taken for audio by its extension, whatever the case, and by nothing else.
pub proof fn law_audio_goes_by_extension(dir: Seq<char>, name: Seq<char>, ext: Seq<char>)
    requires
        name.len() > 0,
        !name.contains('/'),
        !ext.contains('/'),
        !ext.contains('.'),
        name + seq!['.'] + ext != ".."@,
        name + seq!['.'] + ext != "."@,
    ensures
        names_audio(name + seq!['.'] + ext) <==> {
            let e = to_lower(ext);
            e == "flac"@ || e == "mp3"@ || e == "m4a"@ || e == "mp4"@ || e == "ogg"@ || e
                == "opus"@ || e == "wav"@ || e == "aiff"@ || e == "wv"@
        },
        names_audio(dir + seq!['/'] + (name + seq!['.'] + ext)) == names_audio(
            name + seq!['.'] + ext,
        ),
{
    let full = name + seq!['.'] + ext;
    law_kind_goes_by_extension(false, name, ext);
    assert forall|i: int| 0 <= i < full.len() implies full[i] != '/' by {
        if i < name.len() {
            assert(full[i] == name[i]);
        } else if i > name.len() {
            assert(full[i] == ext[i - name.len() - 1]);
        }
    }
    law_file_name_is_the_last_part(dir, full);
    let all = audio_extensions();
    let e = to_lower(ext);
    if e == "flac"@ {
        assert(all[0] == e);
    }
    if e == "mp3"@ {
        assert(all[1] == e);
    }
    if e == "m4a"@ {
        assert(all[2] == e);
    }
    if e == "mp4"@ {
        assert(all[3] == e);
    }
    if e == "ogg"@ {
        assert(all[4] == e);
    }
    if e == "opus"@ {
        assert(all[5] == e);
    }
    if e == "wav"@ {
        assert(all[6] == e);
    }
    if e == "aiff"@ {
        assert(all[7] == e);
    }
    if e == "wv"@ {
        assert(all[8] == e);
    }
}

/// A file counts as unreadable if and only if nothing was read from it.
pub proof fn law_unreadable_files_are_counted(
    files: Seq<Option<FileTags>>,
    more: Option<FileTags>,
)
    ensures
        unreadable(files.push(more)) == unreadable(files) + if more is None {
            1int
        } else {
            0
        },
        unreadable(Seq::empty()) == 0,
{
    assert(files.push(more).drop_last() =~= files);
}

} // verus!
