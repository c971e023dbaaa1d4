//! One .m3u file per playlist, in the order of the playlist.
//!
//! This is the half that Navidrome consumes. The playlist tag is for everything else that reads
//! the library.

use vstd::prelude::*;

use crate::report::{law_lines_list_every_item, lines, write_lines};
use crate::sources::{components, names_something};
use crate::text::{
    is_whitespace, join, law_split_at_separator, law_trim_undoes_padding, lemma_filter_all,
    lemma_filter_push, lemma_filter_subset, lemma_split_join, lemma_split_none, lemma_split_parts,
    lemma_trim, same_text, split, text_view, trim, trim_text, views, Separator,
};

verus! {

/// Whether a character is illegal in a file name on some file system or other.
pub open spec fn is_illegal(c: char) -> bool {
    ||| c == '/'
    ||| c == '\\'
    ||| c == ':'
    ||| c == '*'
    ||| c == '?'
    ||| c == '"'
    ||| c == '<'
    ||| c == '>'
    ||| c == '|'
}

/// A text with an underscore for each illegal character.
pub open spec fn legal(text: Seq<char>) -> Seq<char> {
    text.map_values(
        |c: char|
            if is_illegal(c) {
                '_'
            } else {
                c
            },
    )
}

/// A name that a file can have.
pub open spec fn safe(name: Seq<char>) -> Seq<char> {
    let trimmed = trim(legal(name));
    if trimmed.len() == 0 {
        "playlist"@
    } else {
        trimmed
    }
}

/// Replaces the characters that are illegal in a file name on some file system or other, so that a
/// playlist called "AC/DC <3" still lands on disk.
pub fn safe_name(name: &str) -> (r: String)
    ensures
        r@ == safe(name@),
{
    let mut cleaned = String::new();
    assert(cleaned@ =~= legal(name@.take(0)));
    for c in it: name.chars()
        invariant
            it.seq() == name@,
            cleaned@ == legal(name@.take(it.index() as int)),
    {
        let ghost i = it.index() as int;
        let kept = match c {
            '/' | '\\' | ':' | '*' | '?' | '"' | '<' | '>' | '|' => '_',
            other => other,
        };
        let ghost before = cleaned@;
        cleaned.push(kept);
        assert(cleaned@ =~= legal(name@.take(i + 1)));
    }
    assert(name@.take(name@.len() as int) =~= name@);
    let trimmed = trim_text(cleaned.as_str());
    if trimmed.as_str().is_empty() {
        String::from_str("playlist")
    } else {
        trimmed
    }
}

/// A safe name is not empty, has no illegal character, and stays as it is when it is made safe
/// again.
pub proof fn law_safe_name_is_legal(name: Seq<char>)
    ensures
        safe(name).len() > 0,
        forall|i: int| 0 <= i < safe(name).len() ==> !is_illegal(#[trigger] safe(name)[i]),
        safe(safe(name)) == safe(name),
{
    reveal_strlit("playlist");
    let cleaned = legal(name);
    let made = safe(name);
    if trim(cleaned).len() == 0 {
        assert(made[0] == 'p' && made.last() == 't');
        assert(trim(made) == made) by {
            assert(crate::text::trim_start(made) == made);
        }
    } else {
        crate::text::lemma_trim_part(cleaned);
        lemma_trim(cleaned);
    }
    assert(legal(made) =~= made);
}

/// Whether a path starts at the root.
pub open spec fn is_absolute(path: Seq<char>) -> bool {
    path.len() > 0 && path[0] == '/'
}

/// How many parts two paths have in common, from the first on.
pub open spec fn shared(a: Seq<Seq<char>>, b: Seq<Seq<char>>) -> nat
    decreases a.len(),
{
    if a.len() == 0 || b.len() == 0 || a[0] != b[0] {
        0
    } else {
        1 + shared(a.skip(1), b.skip(1))
    }
}

/// So many steps up.
pub open spec fn steps_up(n: nat) -> Seq<Seq<char>> {
    Seq::new(n, |i: int| ".."@)
}

/// What leads from one directory to a path, both from the root on: up to what they share, and
/// from there down to the path.
pub open spec fn way(path: Seq<Seq<char>>, base: Seq<Seq<char>>) -> Seq<Seq<char>> {
    let k = shared(path, base);
    steps_up((base.len() - k) as nat) + path.skip(k as int)
}

/// The relative path from a directory to a path that `pathdiff::diff_paths` finds.
pub uninterp spec fn path_difference(path: Seq<char>, base: Seq<char>) -> Option<Seq<char>>;

/// `pathdiff::diff_paths`, on paths whose parts are set apart by slashes: the relative path from
/// the base directory to the path. An absolute path stays as it is where the base is relative, and
/// there is no way from an absolute base to a relative path. Where both are absolute and the base
/// does not go up, the way leads up from the base to what the two share and from there down.
#[verifier::external_body]
fn diff_paths(path: &str, base: &str) -> (r: Option<String>)
    ensures
        text_view(r) == path_difference(path@, base@),
        is_absolute(path@) && !is_absolute(base@) ==> text_view(r) == Some(path@),
        !is_absolute(path@) && is_absolute(base@) ==> r is None,
        is_absolute(path@) && is_absolute(base@) && !components(base@).contains(".."@) ==> text_view(
            r,
        ) == Some(join(way(components(path@), components(base@)), "/"@)),
{
    pathdiff::diff_paths(path, base).map(|p| p.to_string_lossy().into_owned())
}

/// The entry for a file in a playlist of some directory: the relative path to it if there is one,
/// else its path.
pub open spec fn entry_of(path: Seq<char>, difference: Option<Seq<char>>) -> Seq<char> {
    match difference {
        Some(way) => way,
        None => path,
    }
}

/// The entry for a file in a playlist of some directory. Readers resolve entries relative to the
/// directory of the playlist file, not to the library root, so a playlist directory inside the
/// library needs "../" before its entries.
pub fn entry(path: &str, dir: &str) -> (r: String)
    ensures
        r@ == entry_of(path@, path_difference(path@, dir@)),
        !is_absolute(path@) && is_absolute(dir@) || is_absolute(path@) && !is_absolute(dir@)
            ==> r@ == path@,
        is_absolute(path@) && is_absolute(dir@) && !components(dir@).contains(".."@) ==> r@ == join(
            way(components(path@), components(dir@)),
            "/"@,
        ),
{
    match diff_paths(path, dir) {
        Some(way) => way,
        None => String::from_str(path),
    }
}

/// Where a relative path leads to from a directory, both part by part: two dots lead one up.
pub open spec fn followed(dir: Seq<Seq<char>>, steps: Seq<Seq<char>>) -> Seq<Seq<char>>
    decreases steps.len(),
{
    if steps.len() == 0 {
        dir
    } else if steps[0] == ".."@ {
        followed(dir.drop_last(), steps.skip(1))
    } else {
        followed(dir.push(steps[0]), steps.skip(1))
    }
}

/// An entry leads from the directory of the playlist file back to the file, whatever the two have
/// in common.
pub proof fn law_entry_leads_to_the_file(path: Seq<char>, dir: Seq<char>)
    requires
        is_absolute(path),
        is_absolute(dir),
        !components(path).contains(".."@),
        !components(dir).contains(".."@),
    ensures
        followed(
            components(dir),
            components(join(way(components(path), components(dir)), "/"@)),
        ) == components(path),
{
    let p = components(path);
    let d = components(dir);
    let k = shared(p, d);
    lemma_shared(p, d);
    let steps = way(p, d);
    lemma_components_plain(path);
    reveal_strlit("..");
    reveal_strlit(".");
    reveal_strlit("/");
    assert("/"@ =~= seq!['/']);
    assert forall|i: int| 0 <= i < steps.len() implies !(#[trigger] steps[i]).contains('/')
        && names_something()(steps[i]) by {
        if i >= d.len() - k {
            assert(steps[i] == p[i - (d.len() - k) + k]);
        } else {
            assert(steps[i] == ".."@);
        }
    }
    if steps.len() > 0 {
        lemma_split_join(steps, '/');
        lemma_filter_all(steps, names_something());
    } else {
        let none = join(steps, "/"@);
        assert(none =~= Seq::empty());
        let empty = Seq::<Seq<char>>::empty();
        assert(split(none, Separator::Char('/')) =~= empty.push(none));
        lemma_filter_push(empty, none, names_something());
        lemma_filter_all(empty, names_something());
        assert(components(none) =~= steps);
    }
    assert(components(join(steps, "/"@)) == steps);
    lemma_up(d, (d.len() - k) as nat, p.skip(k as int));
    assert(d.take(k as int) =~= p.take(k as int));
    assert forall|i: int| 0 <= i < p.skip(k as int).len() implies #[trigger] p.skip(k as int)[i]
        != ".."@ by {
        assert(p.contains(p[i + k]));
    }
    lemma_down(d.take(k as int), p.skip(k as int));
    assert(p.take(k as int) + p.skip(k as int) =~= p);
}

proof fn lemma_shared(a: Seq<Seq<char>>, b: Seq<Seq<char>>)
    ensures
        shared(a, b) <= a.len(),
        shared(a, b) <= b.len(),
        forall|i: int| 0 <= i < shared(a, b) ==> #[trigger] a[i] == b[i],
    decreases a.len(),
{
    if !(a.len() == 0 || b.len() == 0 || a[0] != b[0]) {
        lemma_shared(a.skip(1), b.skip(1));
        assert forall|i: int| 0 <= i < shared(a, b) implies #[trigger] a[i] == b[i] by {
            if i > 0 {
                assert(a.skip(1)[i - 1] == b.skip(1)[i - 1]);
            }
        }
    }
}

proof fn lemma_components_plain(path: Seq<char>)
    ensures
        forall|i: int|
            0 <= i < components(path).len() ==> !(#[trigger] components(path)[i]).contains('/')
                && names_something()(components(path)[i]),
{
    let parts = split(path, Separator::Char('/'));
    lemma_split_parts(path, '/');
    assert forall|i: int| 0 <= i < components(path).len() implies !(
    #[trigger] components(path)[i]).contains('/') && names_something()(components(path)[i]) by {
        lemma_filter_subset(parts, names_something(), i);
        parts.lemma_filter_pred(names_something(), i);
        let j = choose|j: int| 0 <= j < parts.len() && parts[j] == components(path)[i];
        assert(!parts[j].contains('/'));
    }
}

proof fn lemma_up(dir: Seq<Seq<char>>, n: nat, rest: Seq<Seq<char>>)
    requires
        n <= dir.len(),
    ensures
        followed(dir, steps_up(n) + rest) == followed(dir.take(dir.len() - n), rest),
    decreases n,
{
    let steps = steps_up(n) + rest;
    if n == 0 {
        assert(steps =~= rest);
        assert(dir.take(dir.len() as int) =~= dir);
    } else {
        assert(steps[0] == ".."@);
        assert(steps.skip(1) =~= steps_up((n - 1) as nat) + rest);
        lemma_up(dir.drop_last(), (n - 1) as nat, rest);
        assert(dir.drop_last().take(dir.len() - n) =~= dir.take(dir.len() - n));
    }
}

proof fn lemma_down(dir: Seq<Seq<char>>, rest: Seq<Seq<char>>)
    requires
        forall|i: int| 0 <= i < rest.len() ==> #[trigger] rest[i] != ".."@,
    ensures
        followed(dir, rest) == dir + rest,
    decreases rest.len(),
{
    if rest.len() == 0 {
        assert(dir + rest =~= dir);
    } else {
        assert forall|i: int| 0 <= i < rest.skip(1).len() implies #[trigger] rest.skip(1)[i]
            != ".."@ by {
            assert(rest.skip(1)[i] == rest[i + 1]);
        }
        lemma_down(dir.push(rest[0]), rest.skip(1));
        assert(dir.push(rest[0]) + rest.skip(1) =~= dir + rest);
    }
}

/// What a playlist file holds: a first line that says what it is, then its entries.
pub open spec fn body_of(entries: Seq<Seq<char>>) -> Seq<char> {
    "#EXTM3U\n"@ + lines(entries)
}

/// Writes a playlist file.
pub fn body(entries: &Vec<String>) -> (r: String)
    ensures
        r@ == body_of(views(entries@)),
{
    let mut r = String::from_str("#EXTM3U\n");
    r.append(write_lines(entries).as_str());
    r
}

/// The entries for files in a playlist of some directory.
pub open spec fn entries_of(files: Seq<usize>, paths: Seq<Seq<char>>, dir: Seq<char>) -> Seq<
    Seq<char>,
> {
    files.map_values(
        |f: usize| entry_of(paths[f as int], path_difference(paths[f as int], dir)),
    )
}

/// The name of the file of a playlist.
pub open spec fn file_title(name: Seq<char>) -> Seq<char> {
    safe(name) + ".m3u"@
}

/// The name and the content of the file of a playlist.
pub open spec fn file_of(
    playlist: (Seq<char>, Seq<usize>),
    paths: Seq<Seq<char>>,
    dir: Seq<char>,
) -> (Seq<char>, Seq<char>) {
    (file_title(playlist.0), body_of(entries_of(playlist.1, paths, dir)))
}

/// Whether one of several files has a name.
pub open spec fn has_file(files: Seq<(Seq<char>, Seq<char>)>, name: Seq<char>) -> bool {
    exists|i: int| 0 <= i < files.len() && (#[trigger] files[i]).0 == name
}

/// Files with one more, which takes the place of the one that has its name.
pub open spec fn with_file(
    files: Seq<(Seq<char>, Seq<char>)>,
    file: (Seq<char>, Seq<char>),
) -> Seq<(Seq<char>, Seq<char>)> {
    if has_file(files, file.0) {
        files.map_values(
            |f: (Seq<char>, Seq<char>)|
                if f.0 == file.0 {
                    file
                } else {
                    f
                },
        )
    } else {
        files.push(file)
    }
}

/// The files of playlists, in the order in which their names first come up. A playlist with
/// nothing in it gets none, and of playlists whose files have the same name the last one stays.
pub open spec fn files_of(
    playlists: Seq<(Seq<char>, Seq<usize>)>,
    paths: Seq<Seq<char>>,
    dir: Seq<char>,
) -> Seq<(Seq<char>, Seq<char>)>
    decreases playlists.len(),
{
    if playlists.len() == 0 {
        Seq::empty()
    } else {
        let before = files_of(playlists.drop_last(), paths, dir);
        if playlists.last().1.len() > 0 {
            with_file(before, file_of(playlists.last(), paths, dir))
        } else {
            before
        }
    }
}

/// Whether a playlist has something in it and no such playlist behind it has the same file.
pub open spec fn has_last_word(playlists: Seq<(Seq<char>, Seq<usize>)>, i: int) -> bool {
    &&& 0 <= i < playlists.len()
    &&& playlists[i].1.len() > 0
    &&& forall|j: int|
        i < j < playlists.len() && (#[trigger] playlists[j]).1.len() > 0 ==> file_title(
            playlists[j].0,
        ) != file_title(playlists[i].0)
}

/// Whether a file is that of a playlist with the last word on its name.
pub open spec fn is_file_of_one(
    file: (Seq<char>, Seq<char>),
    playlists: Seq<(Seq<char>, Seq<usize>)>,
    paths: Seq<Seq<char>>,
    dir: Seq<char>,
) -> bool {
    exists|i: int|
        #[trigger] has_last_word(playlists, i) && file == file_of(playlists[i], paths, dir)
}

/// No two files have the same name.
pub open spec fn distinct_names(files: Seq<(Seq<char>, Seq<char>)>) -> bool {
    forall|a: int, b: int|
        0 <= a < b < files.len() ==> (#[trigger] files[a]).0 != (#[trigger] files[b]).0
}

/// Each file name is handed out once. Every playlist with something in it has a file of its name,
/// with the content of the last such playlist, and there is no other file.
pub proof fn law_one_file_per_name(
    playlists: Seq<(Seq<char>, Seq<usize>)>,
    paths: Seq<Seq<char>>,
    dir: Seq<char>,
)
    ensures
        distinct_names(files_of(playlists, paths, dir)),
        forall|i: int|
            0 <= i < playlists.len() && (#[trigger] playlists[i]).1.len() > 0 ==> has_file(
                files_of(playlists, paths, dir),
                file_title(playlists[i].0),
            ),
        forall|i: int|
            #[trigger] has_last_word(playlists, i) ==> files_of(playlists, paths, dir).contains(
                file_of(playlists[i], paths, dir),
            ),
        forall|k: int|
            0 <= k < files_of(playlists, paths, dir).len() ==> is_file_of_one(
                #[trigger] files_of(playlists, paths, dir)[k],
                playlists,
                paths,
                dir,
            ),
    decreases playlists.len(),
{
    let files = files_of(playlists, paths, dir);
    if playlists.len() > 0 {
        let front = playlists.drop_last();
        let last = playlists.len() - 1;
        let before = files_of(front, paths, dir);
        law_one_file_per_name(front, paths, dir);
        let grows = playlists[last].1.len() > 0;
        let file = file_of(playlists[last], paths, dir);
        let taken = has_file(before, file.0);
        assert(files == if grows {
            with_file(before, file)
        } else {
            before
        });
        assert forall|k: int| 0 <= k < before.len() implies #[trigger] files[k] == if grows
            && before[k].0 == file.0 {
            file
        } else {
            before[k]
        } by {}
        let at = if taken {
            choose|k: int| 0 <= k < before.len() && (#[trigger] before[k]).0 == file.0
        } else {
            before.len() as int
        };
        if grows {
            assert(files[at] == file);
            assert(has_last_word(playlists, last));
        }
        assert forall|i: int|
            0 <= i < playlists.len() && (#[trigger] playlists[i]).1.len() > 0 implies has_file(
            files,
            file_title(playlists[i].0),
        ) by {
            if i < last {
                assert(front[i] == playlists[i]);
                let k = choose|k: int|
                    0 <= k < before.len() && (#[trigger] before[k]).0 == file_title(playlists[i].0);
                assert(files[k].0 == before[k].0);
            } else {
                assert(files[at].0 == file_title(playlists[i].0));
            }
        }
        assert forall|i: int| #[trigger] has_last_word(playlists, i) implies files.contains(
            file_of(playlists[i], paths, dir),
        ) by {
            if i < last {
                assert(front[i] == playlists[i]);
                assert forall|j: int|
                    i < j < front.len() && (#[trigger] front[j]).1.len() > 0 implies file_title(
                    front[j].0,
                ) != file_title(front[i].0) by {
                    assert(front[j] == playlists[j]);
                }
                assert(has_last_word(front, i));
                let kept = file_of(playlists[i], paths, dir);
                let k = choose|k: int| 0 <= k < before.len() && before[k] == kept;
                if grows {
                    assert(file_title(playlists[last].0) != file_title(playlists[i].0));
                }
                assert(files[k] == kept);
            } else {
                assert(files[at] == file);
            }
        }
        assert forall|k: int| 0 <= k < files.len() implies is_file_of_one(
            #[trigger] files[k],
            playlists,
            paths,
            dir,
        ) by {
            if k < before.len() && !(grows && before[k].0 == file.0) {
                assert(files[k] == before[k]);
                assert(is_file_of_one(before[k], front, paths, dir));
                let i = choose|i: int|
                    #[trigger] has_last_word(front, i) && before[k] == file_of(
                        front[i],
                        paths,
                        dir,
                    );
                assert(front[i] == playlists[i]);
                assert forall|j: int|
                    i < j < playlists.len() && (#[trigger] playlists[j]).1.len() > 0
                    implies file_title(playlists[j].0) != file_title(playlists[i].0) by {
                    if j < last {
                        assert(front[j] == playlists[j]);
                    }
                }
                assert(has_last_word(playlists, i));
            } else {
                assert(files[k] == file);
                assert(has_last_word(playlists, last));
            }
        }
    }
}

/// Names with the files that they stand for.
pub open spec fn listing_views(playlists: Seq<(String, Vec<usize>)>) -> Seq<
    (Seq<char>, Seq<usize>),
> {
    playlists.map_values(|p: (String, Vec<usize>)| (p.0@, p.1@))
}

/// Names with contents.
pub open spec fn file_views(files: Seq<(String, String)>) -> Seq<(Seq<char>, Seq<char>)> {
    files.map_values(|f: (String, String)| (f.0@, f.1@))
}

fn entries(files: &Vec<usize>, paths: &Vec<String>, dir: &str) -> (r: Vec<String>)
    requires
        forall|i: int| 0 <= i < files@.len() ==> #[trigger] files@[i] < paths@.len(),
    ensures
        views(r@) == entries_of(files@, views(paths@), dir@),
{
    let mut r: Vec<String> = Vec::new();
    for i in 0..files.len()
        invariant
            forall|i: int| 0 <= i < files@.len() ==> #[trigger] files@[i] < paths@.len(),
            r@.len() == i,
            forall|k: int|
                0 <= k < i ==> (#[trigger] r@[k])@ == entries_of(files@, views(paths@), dir@)[k],
    {
        let f = files[i];
        r.push(entry(paths[f].as_str(), dir));
    }
    assert(views(r@) =~= entries_of(files@, views(paths@), dir@));
    r
}

fn find_file(files: &Vec<(String, String)>, name: &str) -> (r: Option<usize>)
    ensures
        match r {
            Some(i) => i < files@.len() && files@[i as int].0@ == name@,
            None => !has_file(file_views(files@), name@),
        },
{
    for i in 0..files.len()
        invariant
            forall|k: int| 0 <= k < i ==> (#[trigger] files@[k]).0@ != name@,
    {
        if same_text(files[i].0.as_str(), name) {
            return Some(i);
        }
    }
    assert(forall|k: int|
        0 <= k < files@.len() ==> (#[trigger] file_views(files@)[k]).0 == files@[k].0@);
    None
}

/// What is to be written into a directory: the name and the content of each file, each name once.
/// The playlists name files by their place in the list of paths.
pub fn write_all(dir: &str, playlists: &Vec<(String, Vec<usize>)>, paths: &Vec<String>) -> (r: Vec<
    (String, String),
>)
    requires
        forall|i: int, j: int|
            0 <= i < playlists@.len() && 0 <= j < playlists@[i].1@.len() ==> (
            #[trigger] playlists@[i].1@[j]) < paths@.len(),
    ensures
        file_views(r@) == files_of(listing_views(playlists@), views(paths@), dir@),
        distinct_names(file_views(r@)),
        forall|i: int|
            0 <= i < playlists@.len() && (#[trigger] playlists@[i]).1@.len() > 0 ==> has_file(
                file_views(r@),
                file_title(playlists@[i].0@),
            ),
        forall|i: int|
            #[trigger] has_last_word(listing_views(playlists@), i) ==> file_views(r@).contains(
                file_of(listing_views(playlists@)[i], views(paths@), dir@),
            ),
{
    let ghost all = listing_views(playlists@);
    let ghost names = views(paths@);
    let mut r: Vec<(String, String)> = Vec::new();
    assert(file_views(r@) =~= files_of(all.take(0), names, dir@));
    for i in 0..playlists.len()
        invariant
            forall|i: int, j: int|
                0 <= i < playlists@.len() && 0 <= j < playlists@[i].1@.len() ==> (
                #[trigger] playlists@[i].1@[j]) < paths@.len(),
            all == listing_views(playlists@),
            names == views(paths@),
            file_views(r@) == files_of(all.take(i as int), names, dir@),
    {
        let (name, files) = &playlists[i];
        proof {
            assert(all.take(i + 1).drop_last() =~= all.take(i as int));
            assert(all[i as int] == (name@, files@));
            law_one_file_per_name(all.take(i as int), names, dir@);
        }
        if files.len() > 0 {
            let mut title = safe_name(name.as_str());
            title.append(".m3u");
            let text = body(&entries(files, paths, dir));
            let ghost before = file_views(r@);
            let ghost file = (title@, text@);
            assert(file == file_of(all[i as int], names, dir@));
            match find_file(&r, title.as_str()) {
                Some(at) => {
                    assert(before[at as int].0 == file.0);
                    r[at] = (title, text);
                    assert(file_views(r@) =~= with_file(before, file));
                },
                None => {
                    r.push((title, text));
                    assert(file_views(r@) =~= with_file(before, file));
                },
            }
        }
    }
    proof {
        assert(all.take(all.len() as int) =~= all);
        law_one_file_per_name(all, names, dir@);
        assert(forall|i: int|
            0 <= i < playlists@.len() ==> #[trigger] playlists@[i].1@ == all[i].1);
    }
    r
}

/// A name that a file can have stays as it is, whatever white space is around it, and each illegal
/// character becomes an underscore. A name of white space alone gives "playlist".
pub proof fn law_safe_name_changes_no_more_than_it_must(
    before: Seq<char>,
    name: Seq<char>,
    behind: Seq<char>,
)
    requires
        forall|k: int| 0 <= k < before.len() ==> is_whitespace(#[trigger] before[k]),
        forall|k: int| 0 <= k < behind.len() ==> is_whitespace(#[trigger] behind[k]),
        name.len() > 0 ==> !is_whitespace(name[0]) && !is_whitespace(name.last()),
    ensures
        name.len() > 0 ==> safe(before + name + behind).len() == name.len(),
        forall|i: int|
            0 <= i < name.len() ==> #[trigger] safe(before + name + behind)[i] == if is_illegal(
                name[i],
            ) {
                '_'
            } else {
                name[i]
            },
        name.len() == 0 ==> safe(before + name + behind) == "playlist"@,
{
    let all = legal(before + name + behind);
    assert(all =~= legal(before) + legal(name) + legal(behind));
    assert forall|k: int| 0 <= k < legal(before).len() implies is_whitespace(
        #[trigger] legal(before)[k],
    ) by {
        assert(is_whitespace(before[k]));
    }
    assert forall|k: int| 0 <= k < legal(behind).len() implies is_whitespace(
        #[trigger] legal(behind)[k],
    ) by {
        assert(is_whitespace(behind[k]));
    }
    law_trim_undoes_padding(legal(before), legal(name), legal(behind));
}

/// The lines of a playlist file are the line that says what it is and then every entry, in order.
pub proof fn law_body_lists_every_entry(entries: Seq<Seq<char>>)
    requires
        forall|i: int| 0 <= i < entries.len() ==> !(#[trigger] entries[i]).contains('\n'),
    ensures
        split(body_of(entries), Separator::Char('\n')) == seq!["#EXTM3U"@] + entries
            + seq![Seq::<char>::empty()],
{
    reveal_strlit("#EXTM3U\n");
    reveal_strlit("#EXTM3U");
    let sep = Separator::Char('\n');
    let head = "#EXTM3U"@;
    assert(body_of(entries) =~= head + seq!['\n'] + lines(entries));
    law_split_at_separator(head, '\n', lines(entries), sep);
    assert forall|i: int| 0 <= i < head.len() implies !sep.covers(#[trigger] head[i]) by {}
    lemma_split_none(head, sep);
    law_lines_list_every_item(entries);
    assert(split(body_of(entries), sep) =~= seq![head] + entries + seq![Seq::<char>::empty()]);
}

/// The file of a playlist is named after it and lists each of its files, in order.
pub proof fn law_playlist_file_lists_every_file(
    name: Seq<char>,
    files: Seq<usize>,
    paths: Seq<Seq<char>>,
    dir: Seq<char>,
)
    requires
        forall|i: int|
            0 <= i < files.len() ==> !entry_of(
                paths[#[trigger] files[i] as int],
                path_difference(paths[files[i] as int], dir),
            ).contains('\n'),
    ensures
        ({
            let (title, content) = file_of((name, files), paths, dir);
            let found = split(content, Separator::Char('\n'));
            &&& title == safe(name) + ".m3u"@
            &&& found.len() == files.len() + 2
            &&& found[0] == "#EXTM3U"@
            &&& forall|i: int|
                0 <= i < files.len() ==> #[trigger] found[i + 1] == match path_difference(
                    paths[files[i] as int],
                    dir,
                ) {
                    Some(way) => way,
                    None => paths[files[i] as int],
                }
        }),
{
    let entries = entries_of(files, paths, dir);
    assert forall|i: int| 0 <= i < entries.len() implies !(#[trigger] entries[i]).contains(
        '\n',
    ) by {
        assert(entries[i] == entry_of(
            paths[files[i] as int],
            path_difference(paths[files[i] as int], dir),
        ));
    }
    law_body_lists_every_entry(entries);
    let found = seq!["#EXTM3U"@] + entries + seq![Seq::<char>::empty()];
    assert forall|i: int| 0 <= i < files.len() implies #[trigger] found[i + 1] == entries[i] by {}
}

/// The characters that some file system or other does not have in names are these.
pub proof fn law_illegal_characters(c: char)
    ensures
        is_illegal(c) <==> seq!['/', '\\', ':', '*', '?', '"', '<', '>', '|'].contains(c),
{
    let all = seq!['/', '\\', ':', '*', '?', '"', '<', '>', '|'];
    assert(all[0] == '/' && all[1] == '\\' && all[2] == ':' && all[3] == '*' && all[4] == '?'
        && all[5] == '"' && all[6] == '<' && all[7] == '>' && all[8] == '|');
}

} // verus!
