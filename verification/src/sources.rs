//! Finding the CSV files among what was dropped: loose files, directories and zip archives.

use std::io::Read;

use vstd::prelude::*;
use vstd::relations::total_ordering;

use crate::exportify::source_views;
use crate::order::{
    at_or_before, by_text, law_sorting_keeps_every_text, lemma_text_order_is_total, sort,
    sort_texts, text_le, text_lt,
};
use crate::text::{
    ends_in, ends_with, law_split_at_separator, lemma_filter_all, lemma_filter_push,
    lemma_filter_subset, lemma_push_contains, lemma_split_none, lemma_take_next, lowercase,
    same_text, split, split_text, text_view, to_chars, to_lower, views, Separator,
};

verus! {

/// A part of a path that names something: not empty and not the current directory.
pub open spec fn names_something() -> spec_fn(Seq<char>) -> bool {
    |part: Seq<char>| part.len() > 0 && part != "."@
}

/// The parts of a path that name something.
pub open spec fn components(path: Seq<char>) -> Seq<Seq<char>> {
    split(path, Separator::Char('/')).filter(names_something())
}

/// The last part of a path; none where it names nothing or ends in the parent directory.
pub open spec fn file_name(path: Seq<char>) -> Option<Seq<char>> {
    let parts = components(path);
    if parts.len() == 0 || parts.last() == ".."@ {
        None
    } else {
        Some(parts.last())
    }
}

/// The last part of a path; none where it names nothing or ends in the parent directory.
pub fn file_name_of(path: &str) -> (r: Option<String>)
    ensures
        match r {
            Some(name) => file_name(path@) == Some(name@),
            None => file_name(path@) is None,
        },
{
    let parts = split_text(path, Separator::Char('/'));
    let ghost all = views(parts@);
    let mut last: Option<usize> = None;
    proof {
        reveal(Seq::filter);
    }
    for i in 0..parts.len()
        invariant
            all == views(parts@),
            match last {
                Some(k) => {
                    &&& k < i
                    &&& all.take(i as int).filter(names_something()).len() > 0
                    &&& all.take(i as int).filter(names_something()).last() == all[k as int]
                },
                None => all.take(i as int).filter(names_something()).len() == 0,
            },
    {
        proof {
            lemma_take_next(all, i as int);
            lemma_filter_push(all.take(i as int), all[i as int], names_something());
        }
        let part = parts[i].as_str();
        if !part.is_empty() && !same_text(part, ".") {
            last = Some(i);
        }
    }
    assert(all.take(parts@.len() as int) =~= all);
    match last {
        Some(k) => {
            if same_text(parts[k].as_str(), "..") {
                None
            } else {
                Some(parts[k].clone())
            }
        },
        None => None,
    }
}

/// Where the extension of a file name begins: at its last dot, unless that is its first
/// character.
pub open spec fn extension_dot(name: Seq<char>) -> Option<int>
    decreases name.len(),
{
    if name.len() <= 1 {
        None
    } else if name.last() == '.' {
        Some(name.len() - 1)
    } else {
        extension_dot(name.drop_last())
    }
}

fn find_dot(name: &Vec<char>) -> (r: Option<usize>)
    ensures
        match r {
            Some(i) => extension_dot(name@) == Some(i as int) && 0 < i < name@.len(),
            None => extension_dot(name@) is None,
        },
{
    let mut n: usize = name.len();
    assert(name@.take(n as int) =~= name@);
    while n > 1
        invariant
            n <= name@.len(),
            extension_dot(name@) == extension_dot(name@.take(n as int)),
        decreases n,
    {
        if name[n - 1] == '.' {
            assert(name@.take(n as int).last() == '.');
            return Some(n - 1);
        }
        assert(name@.take(n as int).drop_last() =~= name@.take(n - 1));
        n = n - 1;
    }
    None
}

/// The extension of the file that a path names.
pub open spec fn extension(path: Seq<char>) -> Option<Seq<char>> {
    match file_name(path) {
        Some(name) => match extension_dot(name) {
            Some(i) => Some(name.skip(i + 1)),
            None => None,
        },
        None => None,
    }
}

/// The extension of the file that a path names, in lower case.
pub open spec fn lower_extension(path: Seq<char>) -> Option<Seq<char>> {
    match extension(path) {
        Some(ext) => Some(to_lower(ext)),
        None => None,
    }
}

/// The extension of the file that a path names, in lower case.
pub fn extension_of(path: &str) -> (r: Option<String>)
    ensures
        match r {
            Some(ext) => lower_extension(path@) == Some(ext@),
            None => lower_extension(path@) is None,
        },
{
    match file_name_of(path) {
        Some(name) => {
            let chars = to_chars(name.as_str());
            let end = chars.len();
            match find_dot(&chars) {
                Some(i) => {
                    let ext = name.as_str().substring_char(i + 1, end);
                    assert(ext@ =~= name@.skip(i + 1));
                    Some(lowercase(ext))
                },
                None => None,
            }
        },
        None => None,
    }
}

/// The name of the file that a path names without its extension; "playlist" where it names none.
pub open spec fn stem_of(path: Seq<char>) -> Seq<char> {
    match file_name(path) {
        Some(name) => match extension_dot(name) {
            Some(i) => name.take(i),
            None => name,
        },
        None => "playlist"@,
    }
}

/// The name of the file that a path names without its extension; "playlist" where it names none.
pub fn stem(path: &str) -> (r: String)
    ensures
        r@ == stem_of(path@),
{
    match file_name_of(path) {
        Some(name) => {
            let chars = to_chars(name.as_str());
            match find_dot(&chars) {
                Some(i) => {
                    let before = name.as_str().substring_char(0, i);
                    assert(before@ =~= name@.take(i as int));
                    String::from_str(before)
                },
                None => name,
            }
        },
        None => String::from_str("playlist"),
    }
}

/// A name and an extension, put together with a dot, come apart again.
pub proof fn law_stem_and_extension_part_a_name(name: Seq<char>, ext: Seq<char>)
    requires
        name.len() > 0,
        !name.contains('/'),
        !ext.contains('/'),
        !ext.contains('.'),
        name + seq!['.'] + ext != ".."@,
    ensures
        stem_of(name + seq!['.'] + ext) == name,
        extension(name + seq!['.'] + ext) == Some(ext),
{
    let full = name + seq!['.'] + ext;
    let sep = Separator::Char('/');
    assert forall|i: int| 0 <= i < full.len() implies !sep.covers(#[trigger] full[i]) by {
        if i < name.len() {
            assert(full[i] == name[i]);
        } else if i > name.len() {
            assert(full[i] == ext[i - name.len() - 1]);
        }
    }
    lemma_split_none(full, sep);
    reveal_strlit(".");
    lemma_filter_all(seq![full], names_something());
    assert(components(full) == seq![full]);
    lemma_dot_of(name, ext);
    assert(full.take(name.len() as int) =~= name);
    assert(full.skip(name.len() as int + 1) =~= ext);
}

proof fn lemma_dot_of(name: Seq<char>, ext: Seq<char>)
    requires
        name.len() > 0,
        !ext.contains('.'),
    ensures
        extension_dot(name + seq!['.'] + ext) == Some(name.len() as int),
    decreases ext.len(),
{
    let full = name + seq!['.'] + ext;
    if ext.len() > 0 {
        assert(full.last() == ext.last());
        assert(ext[ext.len() - 1] != '.');
        assert(full.drop_last() =~= name + seq!['.'] + ext.drop_last());
        assert forall|i: int| 0 <= i < ext.drop_last().len() implies ext.drop_last()[i] != '.' by {
            assert(ext[i] != '.');
        }
        lemma_dot_of(name, ext.drop_last());
    } else {
        assert(full.last() == '.');
    }
}

/// What a dropped path is read as.
#[derive(Clone, Copy, PartialEq, Eq, Debug)]
pub enum SourceKind {
    Directory,
    Zip,
    Csv,
    Other,
}

/// What a dropped path is read as.
pub open spec fn kind_of(is_dir: bool, path: Seq<char>) -> SourceKind {
    if is_dir {
        SourceKind::Directory
    } else if lower_extension(path) == Some("zip"@) {
        SourceKind::Zip
    } else if lower_extension(path) == Some("csv"@) {
        SourceKind::Csv
    } else {
        SourceKind::Other
    }
}

/// Tells what a dropped path is read as.
pub fn source_kind(is_dir: bool, path: &str) -> (r: SourceKind)
    ensures
        r == kind_of(is_dir, path@),
{
    if is_dir {
        return SourceKind::Directory;
    }
    match extension_of(path) {
        Some(ext) => {
            if same_text(ext.as_str(), "zip") {
                SourceKind::Zip
            } else if same_text(ext.as_str(), "csv") {
                proof {
                    reveal_strlit("zip");
                    reveal_strlit("csv");
                    assert("zip"@[0] != "csv"@[0]);
                }
                SourceKind::Csv
            } else {
                SourceKind::Other
            }
        },
        None => SourceKind::Other,
    }
}

/// Which files of a directory are taken.
#[derive(Clone, Copy, PartialEq, Eq, Debug)]
pub enum Wanted {
    /// The CSV files.
    Sheets,
    /// The exports: zip archives and CSV files.
    Exports,
}

impl Wanted {
    /// Whether a file is taken.
    pub open spec fn takes(self, path: Seq<char>) -> bool {
        ||| kind_of(false, path) is Csv
        ||| self is Exports && kind_of(false, path) is Zip
    }

    fn wants(self, path: &str) -> (r: bool)
        ensures
            r == self.takes(path@),
    {
        match source_kind(false, path) {
            SourceKind::Csv => true,
            SourceKind::Zip => match self {
                Wanted::Exports => true,
                Wanted::Sheets => false,
            },
            _ => false,
        }
    }
}

/// Whether the path at one place comes before the one at another: by their order, and where they
/// are equal by their places.
pub open spec fn comes_before(paths: Seq<Seq<char>>, i: int, j: int) -> bool {
    text_le(paths[i], paths[j]) && (paths[i] == paths[j] ==> i < j)
}

/// `places` are those of the paths that are taken, in the order of the paths.
pub open spec fn is_selection(
    places: Seq<usize>,
    paths: Seq<Seq<char>>,
    wanted: Wanted,
) -> bool {
    &&& forall|k: usize|
        #[trigger] places.contains(k) <==> k < paths.len() && wanted.takes(paths[k as int])
    &&& forall|a: int, b: int|
        0 <= a < b < places.len() ==> comes_before(
            paths,
            #[trigger] places[a] as int,
            #[trigger] places[b] as int,
        )
}

/// Picks the files that are taken and puts them in order.
pub fn select(paths: &Vec<String>, wanted: Wanted) -> (r: Vec<usize>)
    ensures
        is_selection(r@, views(paths@), wanted),
{
    let ghost all = views(paths@);
    let mut r: Vec<usize> = Vec::new();
    for i in 0..paths.len()
        invariant
            all == views(paths@),
            forall|k: usize| #[trigger] r@.contains(k) <==> k < i && wanted.takes(all[k as int]),
            forall|a: int, b: int|
                0 <= a < b < r@.len() ==> comes_before(
                    all,
                    #[trigger] r@[a] as int,
                    #[trigger] r@[b] as int,
                ),
    {
        assert(all[i as int] == paths@[i as int]@);
        if wanted.wants(paths[i].as_str()) {
            insert_place(&mut r, paths, i);
            assert(forall|k: usize|
                #[trigger] r@.contains(k) <==> k < i + 1 && wanted.takes(all[k as int]));
        } else {
            assert(forall|k: usize|
                #[trigger] r@.contains(k) <==> k < i + 1 && wanted.takes(all[k as int]));
        }
    }
    r
}

/// Puts a place in order among lower ones.
fn insert_place(places: &mut Vec<usize>, paths: &Vec<String>, i: usize)
    requires
        i < paths@.len(),
        forall|k: usize| #[trigger] old(places)@.contains(k) ==> k < i,
        forall|a: int, b: int|
            0 <= a < b < old(places)@.len() ==> comes_before(
                views(paths@),
                #[trigger] old(places)@[a] as int,
                #[trigger] old(places)@[b] as int,
            ),
    ensures
        forall|k: usize| #[trigger] final(places)@.contains(k) <==> old(places)@.contains(k) || k == i,
        forall|a: int, b: int|
            0 <= a < b < final(places)@.len() ==> comes_before(
                views(paths@),
                #[trigger] final(places)@[a] as int,
                #[trigger] final(places)@[b] as int,
            ),
{
    proof {
        lemma_text_order_is_total();
    }
    let ghost all = views(paths@);
    let ghost leq = by_text();
    let ghost before = places@;
    assert forall|j: int| 0 <= j < before.len() implies #[trigger] before[j] < i by {
        assert(before.contains(before[j]));
    }
    let mut at: usize = places.len();
    while at > 0 && !at_or_before(paths[places[at - 1]].as_str(), paths[i].as_str())
        invariant
            at <= places@.len(),
            i < paths@.len(),
            places@ == before,
            all == views(paths@),
            leq == by_text(),
            total_ordering(leq),
            forall|j: int| 0 <= j < before.len() ==> #[trigger] before[j] < i,
            forall|j: int|
                at <= j < before.len() ==> text_lt(all[i as int], all[#[trigger] before[j] as int]),
        decreases at,
    {
        at = at - 1;
        proof {
            let j = before[at as int] as int;
            assert(all[j] == paths@[j]@ && all[i as int] == paths@[i as int]@);
            assert(leq(all[i as int], all[j]) || leq(all[j], all[i as int]));
            assert(leq(all[i as int], all[i as int]));
        }
    }
    proof {
        if at > 0 {
            let j = before[at - 1] as int;
            assert(all[j] == paths@[j]@ && all[i as int] == paths@[i as int]@);
        }
        assert forall|a: int| 0 <= a < at implies comes_before(
            all,
            #[trigger] before[a] as int,
            i as int,
        ) by {
            if a < at - 1 {
                assert(comes_before(all, before[a] as int, before[at - 1] as int));
                assert(leq(all[before[a] as int], all[before[at - 1] as int]));
                assert(leq(all[before[at - 1] as int], all[i as int]));
            }
        }
    }
    places.insert(at, i);
    proof {
        let after = places@;
        assert(after =~= before.insert(at as int, i));
        assert forall|a: int, b: int| 0 <= a < b < after.len() implies comes_before(
            all,
            #[trigger] after[a] as int,
            #[trigger] after[b] as int,
        ) by {
            if b < at {
                assert(comes_before(all, before[a] as int, before[b] as int));
            } else if b == at {
                assert(comes_before(all, before[a] as int, i as int));
            } else if a < at {
                assert(comes_before(all, before[a] as int, before[b - 1] as int));
            } else if a == at {
                assert(text_lt(all[i as int], all[before[b - 1] as int]));
            } else {
                assert(comes_before(all, before[a - 1] as int, before[b - 1] as int));
            }
        }
        assert forall|k: usize| #[trigger] after.contains(k) <==> before.contains(k) || k == i by {
            if after.contains(k) {
                let j = choose|j: int| 0 <= j < after.len() && after[j] == k;
                if j < at {
                    assert(before[j] == k);
                } else if j > at {
                    assert(before[j - 1] == k);
                }
            }
            if before.contains(k) {
                let j = choose|j: int| 0 <= j < before.len() && before[j] == k;
                if j < at {
                    assert(after[j] == k);
                } else {
                    assert(after[j + 1] == k);
                }
            }
            assert(after[at as int] == i);
        }
    }
}

/// The error type of the `zip` crate.
#[verifier::external_type_specification]
#[verifier::external_body]
pub struct ExZipError(zip::result::ZipError);

/// The names of the entries of a zip archive in the order of its directory, each missing where
/// the entry cannot be opened; nothing where the bytes are no archive.
pub uninterp spec fn zip_names(archive: Seq<u8>) -> Option<Seq<Option<Seq<char>>>>;

/// `ZipArchive::new`, then `by_index` and `ZipFile::name` of every entry.
#[verifier::external_body]
fn archive_names(archive: &[u8]) -> (r: Result<Vec<Option<String>>, zip::result::ZipError>)
    ensures
        match r {
            Ok(names) => zip_names(archive@) == Some(
                names@.map_values(|n: Option<String>| text_view(n)),
            ),
            Err(_) => zip_names(archive@) is None,
        },
{
    let mut opened = zip::ZipArchive::new(std::io::Cursor::new(archive))?;
    let names = (0..opened.len())
        .map(|i| opened.by_index(i).ok().map(|entry| entry.name().to_string()))
        .collect();
    Ok(names)
}

/// What an entry of a zip archive holds; nothing where it cannot be read.
pub uninterp spec fn zip_content(archive: Seq<u8>, name: Seq<char>) -> Option<Seq<u8>>;

/// `ZipArchive::new` and `by_name`, read to the end.
#[verifier::external_body]
fn archive_content(archive: &[u8], name: &str) -> (r: Result<Vec<u8>, zip::result::ZipError>)
    ensures
        match r {
            Ok(content) => zip_content(archive@, name@) == Some(content@),
            Err(_) => zip_content(archive@, name@) is None,
        },
{
    let mut opened = zip::ZipArchive::new(std::io::Cursor::new(archive))?;
    let mut content = Vec::new();
    opened.by_name(name)?.read_to_end(&mut content)?;
    Ok(content)
}

/// What `String::from_utf8_lossy` makes of bytes.
pub uninterp spec fn utf8_lossy(bytes: Seq<u8>) -> Seq<char>;

/// `String::from_utf8_lossy`: the text that the bytes encode, with a replacement character for
/// what is not UTF-8. Valid UTF-8 is decoded as it is.
#[verifier::external_body]
fn decode_lossy(bytes: &Vec<u8>) -> (r: String)
    ensures
        r@ == utf8_lossy(bytes@),
        vstd::utf8::valid_utf8(bytes@) ==> r@ == vstd::utf8::decode_utf8(bytes@),
{
    String::from_utf8_lossy(bytes).into_owned()
}

/// An entry that can be opened and whose name ends in ".csv", whatever the case.
pub open spec fn is_sheet_name() -> spec_fn(Option<Seq<char>>) -> bool {
    |name: Option<Seq<char>>| name is Some && ends_in(to_lower(name->Some_0), ".csv"@)
}

/// The CSV files among the entries of an archive, in the order of their names.
pub open spec fn sheet_names(names: Seq<Option<Seq<char>>>) -> Seq<Seq<char>> {
    sort(names.filter(is_sheet_name()).map_values(|n: Option<Seq<char>>| n->Some_0))
}

/// Picks the CSV files among the entries of an archive and puts them in order.
pub fn select_entries(names: &Vec<Option<String>>) -> (r: Vec<String>)
    ensures
        views(r@) == sheet_names(names@.map_values(|n: Option<String>| text_view(n))),
{
    let ghost all = names@.map_values(|n: Option<String>| text_view(n));
    let ghost bare = |n: Option<Seq<char>>| n->Some_0;
    let mut found: Vec<String> = Vec::new();
    proof {
        reveal(Seq::filter);
        assert(views(found@) =~= all.take(0).filter(is_sheet_name()).map_values(bare));
    }
    for i in 0..names.len()
        invariant
            all == names@.map_values(|n: Option<String>| text_view(n)),
            bare == (|n: Option<Seq<char>>| n->Some_0),
            views(found@) == all.take(i as int).filter(is_sheet_name()).map_values(bare),
    {
        let ghost kept = all.take(i as int).filter(is_sheet_name());
        proof {
            lemma_take_next(all, i as int);
            lemma_filter_push(all.take(i as int), all[i as int], is_sheet_name());
        }
        if let Some(name) = &names[i] {
            if ends_with(lowercase(name.as_str()).as_str(), ".csv") {
                let ghost before = views(found@);
                found.push(name.clone());
                proof {
                    assert(views(found@) =~= before.push(name@));
                    assert(kept.push(all[i as int]).map_values(bare) =~= before.push(name@));
                }
            }
        }
    }
    assert(all.take(names@.len() as int) =~= all);
    sort_texts(&found)
}

/// Why an archive gives no files.
#[derive(Clone, PartialEq, Eq, Debug)]
pub enum ArchiveError {
    /// It cannot be read as a zip archive.
    NotAnArchive,
    /// The entry of this name cannot be read.
    Entry(String),
}

/// Whether an entry of an archive can be read.
pub open spec fn can_read(archive: Seq<u8>, name: Seq<char>) -> bool {
    zip_content(archive, name) is Some
}

/// The playlist name and the text of each CSV file in an archive, in the order of the names.
pub open spec fn archive_sources(archive: Seq<u8>, names: Seq<Seq<char>>) -> Seq<
    (Seq<char>, Seq<char>),
> {
    names.map_values(
        |n: Seq<char>| (stem_of(n), utf8_lossy(zip_content(archive, n)->Some_0)),
    )
}

/// The CSV files of a zip archive: the name of the playlist and the text of each, in the order of
/// their names.
pub fn zip_sources(archive: &[u8]) -> (r: Result<Vec<(String, String)>, ArchiveError>)
    ensures
        match r {
            Ok(found) => {
                &&& zip_names(archive@) matches Some(names)
                &&& forall|i: int|
                    0 <= i < sheet_names(names).len() ==> can_read(
                        archive@,
                        #[trigger] sheet_names(names)[i],
                    )
                &&& source_views(found@) == archive_sources(archive@, sheet_names(names))
            },
            Err(ArchiveError::NotAnArchive) => zip_names(archive@) is None,
            Err(ArchiveError::Entry(name)) => {
                &&& zip_names(archive@) matches Some(names)
                &&& exists|i: int|
                    {
                        &&& 0 <= i < sheet_names(names).len()
                        &&& name@ == #[trigger] sheet_names(names)[i]
                        &&& !can_read(archive@, name@)
                        &&& forall|j: int|
                            0 <= j < i ==> can_read(archive@, #[trigger] sheet_names(names)[j])
                    }
            },
        },
{
    let entries = match archive_names(archive) {
        Ok(names) => names,
        Err(_) => {
            return Err(ArchiveError::NotAnArchive);
        },
    };
    let names = select_entries(&entries);
    let ghost all = views(names@);
    let mut found: Vec<(String, String)> = Vec::new();
    for i in 0..names.len()
        invariant
            all == views(names@),
            zip_names(archive@) is Some,
            all == sheet_names(zip_names(archive@)->Some_0),
            forall|j: int| 0 <= j < i ==> can_read(archive@, #[trigger] all[j]),
            source_views(found@) == archive_sources(archive@, all.take(i as int)),
    {
        let name = names[i].as_str();
        assert(all[i as int] == name@);
        match archive_content(archive, name) {
            Ok(content) => {
                let text = decode_lossy(&content);
                let ghost before = source_views(found@);
                found.push((stem(name), text));
                proof {
                    lemma_take_next(all, i as int);
                    assert(source_views(found@) =~= before.push((stem_of(name@), text@)));
                    assert(archive_sources(archive@, all.take(i as int).push(all[i as int]))
                        =~= before.push((stem_of(name@), text@)));
                }
            },
            Err(_) => {
                return Err(ArchiveError::Entry(names[i].clone()));
            },
        }
    }
    assert(all.take(names@.len() as int) =~= all);
    Ok(found)
}

/// Whether a text can be the name of a file.
pub open spec fn is_file_name(name: Seq<char>) -> bool {
    name.len() > 0 && !name.contains('/') && name != "."@ && name != ".."@
}

/// The name of a file is what stands behind the last slash of its path, and only the name decides
/// on stem and extension.
pub proof fn law_file_name_is_the_last_part(dir: Seq<char>, name: Seq<char>)
    requires
        is_file_name(name),
    ensures
        file_name(dir + seq!['/'] + name) == Some(name),
        file_name(name) == Some(name),
        stem_of(dir + seq!['/'] + name) == stem_of(name),
        extension(dir + seq!['/'] + name) == extension(name),
        lower_extension(dir + seq!['/'] + name) == lower_extension(name),
        kind_of(false, dir + seq!['/'] + name) == kind_of(false, name),
{
    let sep = Separator::Char('/');
    law_split_at_separator(dir, '/', name, sep);
    assert forall|i: int| 0 <= i < name.len() implies !sep.covers(#[trigger] name[i]) by {}
    lemma_split_none(name, sep);
    Seq::filter_distributes_over_add(split(dir, sep), seq![name], names_something());
    lemma_filter_all(seq![name], names_something());
    let parts = components(dir + seq!['/'] + name);
    assert(parts.last() == name);
}

/// A path is read by the extension of its file, whatever the case, unless it is a directory.
pub proof fn law_kind_goes_by_extension(is_dir: bool, name: Seq<char>, ext: Seq<char>)
    requires
        name.len() > 0,
        !name.contains('/'),
        !ext.contains('/'),
        !ext.contains('.'),
        name + seq!['.'] + ext != ".."@,
    ensures
        kind_of(is_dir, name + seq!['.'] + ext) is Directory <==> is_dir,
        kind_of(is_dir, name + seq!['.'] + ext) is Zip <==> !is_dir && to_lower(ext) == seq![
            'z',
            'i',
            'p',
        ],
        kind_of(is_dir, name + seq!['.'] + ext) is Csv <==> !is_dir && to_lower(ext) == seq![
            'c',
            's',
            'v',
        ],
        lower_extension(name + seq!['.'] + ext) == Some(to_lower(ext)),
{
    law_stem_and_extension_part_a_name(name, ext);
    reveal_strlit("zip");
    reveal_strlit("csv");
    assert("zip"@ =~= seq!['z', 'i', 'p']);
    assert("csv"@ =~= seq!['c', 's', 'v']);
    assert("zip"@[0] != "csv"@[0]);
}

/// What is selected from a directory is every file that is wanted, each once, in the order of the
/// paths: CSV files always, zip archives only among exports.
pub proof fn law_selection_is_complete_and_ordered(
    places: Seq<usize>,
    paths: Seq<Seq<char>>,
    wanted: Wanted,
)
    requires
        is_selection(places, paths, wanted),
    ensures
        forall|k: usize|
            #[trigger] places.contains(k) <==> k < paths.len() && (kind_of(
                false,
                paths[k as int],
            ) is Csv || (wanted is Exports && kind_of(false, paths[k as int]) is Zip)),
        forall|a: int, b: int|
            0 <= a < b < places.len() ==> text_le(
                paths[#[trigger] places[a] as int],
                paths[#[trigger] places[b] as int],
            ) && places[a] != places[b],
{
    assert forall|a: int, b: int| 0 <= a < b < places.len() implies text_le(
        paths[#[trigger] places[a] as int],
        paths[#[trigger] places[b] as int],
    ) && places[a] != places[b] by {
        assert(comes_before(paths, places[a] as int, places[b] as int));
    }
}

/// The sheets of an archive are every entry that can be opened and whose name ends in ".csv",
/// whatever the case, in the order of the names.
pub proof fn law_every_sheet_of_an_archive_is_taken(names: Seq<Option<Seq<char>>>, name: Seq<char>)
    ensures
        sheet_names(names).contains(name) <==> names.contains(Some(name)) && ends_in(
            to_lower(name),
            ".csv"@,
        ),
        forall|i: int, j: int|
            0 <= i < j < sheet_names(names).len() ==> text_le(
                #[trigger] sheet_names(names)[i],
                #[trigger] sheet_names(names)[j],
            ),
        sheet_names(names).len() == names.filter(is_sheet_name()).len(),
{
    let kept = names.filter(is_sheet_name());
    let bare = kept.map_values(|n: Option<Seq<char>>| n->Some_0);
    law_sorting_keeps_every_text(bare);
    if bare.contains(name) {
        let i = choose|i: int| 0 <= i < bare.len() && bare[i] == name;
        names.lemma_filter_pred(is_sheet_name(), i);
        lemma_filter_subset(names, is_sheet_name(), i);
        assert(kept[i] == Some(name));
    }
    if names.contains(Some(name)) && ends_in(to_lower(name), ".csv"@) {
        let i = choose|i: int| 0 <= i < names.len() && names[i] == Some(name);
        lemma_filter_has(names, is_sheet_name(), i);
        let k = choose|k: int| 0 <= k < kept.len() && kept[k] == Some(name);
        assert(bare[k] == name);
    }
}

proof fn lemma_filter_has<A>(s: Seq<A>, p: spec_fn(A) -> bool, i: int)
    requires
        0 <= i < s.len(),
        p(s[i]),
    ensures
        s.filter(p).contains(s[i]),
    decreases s.len(),
{
    reveal(Seq::filter);
    let front = s.drop_last();
    let before = front.filter(p);
    if i < front.len() {
        lemma_filter_has(front, p, i);
        if p(s.last()) {
            lemma_push_contains(before, s.last(), s[i]);
        }
    } else {
        lemma_push_contains(before, s[i], s[i]);
    }
}

/// Every sheet of an archive gives its own text under the stem of its own name.
pub proof fn law_every_sheet_of_an_archive_is_read(archive: Seq<u8>, names: Seq<Seq<char>>, i: int)
    requires
        0 <= i < names.len(),
        zip_content(archive, names[i]) is Some,
    ensures
        archive_sources(archive, names).len() == names.len(),
        archive_sources(archive, names)[i].0 == stem_of(names[i]),
        archive_sources(archive, names)[i].1 == utf8_lossy(
            zip_content(archive, names[i])->Some_0,
        ),
{
}

} // verus!
