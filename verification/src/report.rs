//! The texts that tell what came of an import.

use vstd::prelude::*;

use crate::model::{track_count, PlaylistView};
use crate::outcome::{
    files_in, law_every_track_is_accounted_for, members, misses, missing_of, missing_views, total_by,
    Counts, Found, Outcome,
};
use crate::resolve::Method;
use crate::text::{
    decimal, decimal_text, join, join_texts, law_split_at_separator, lemma_split_len, split, views,
    Separator,
};

verus! {

/// A share in whole percent: the nearest whole number, the even one of two that are as near. The
/// share of nothing is 0.
pub open spec fn is_percent(part: nat, whole: nat, percent: int) -> bool {
    if whole == 0 {
        percent == 0
    } else {
        let off = 200 * part - 2 * percent * whole;
        &&& -whole <= off <= whole
        &&& (off == whole || off == -whole) ==> percent % 2 == 0
    }
}

/// The only number that is the share in whole percent.
pub proof fn law_percent_is_unique(part: nat, whole: nat, a: int, b: int)
    requires
        is_percent(part, whole, a),
        is_percent(part, whole, b),
    ensures
        a == b,
{
    if whole > 0 && a != b {
        let (x, y) = if a < b {
            (a, b)
        } else {
            (b, a)
        };
        assert(2 * y * whole - 2 * x * whole == 2 * (y - x) * whole) by (nonlinear_arith);
        assert(2 * (y - x) * whole >= 2 * whole) by (nonlinear_arith)
            requires
                y - x >= 1,
                whole > 0,
        ;
        if y - x >= 2 {
            assert(2 * (y - x) * whole >= 4 * whole) by (nonlinear_arith)
                requires
                    y - x >= 2,
                    whole > 0,
            ;
        }
    }
}

/// The share in whole percent.
pub open spec fn percent_of(part: nat, whole: nat) -> int {
    choose|percent: int| is_percent(part, whole, percent)
}

/// Computes a share in whole percent.
pub fn percent(part: usize, whole: usize) -> (r: u128)
    ensures
        is_percent(part as nat, whole as nat, r as int),
        r == percent_of(part as nat, whole as nat),
{
    let r: u128 = if whole == 0 {
        0
    } else {
        let scaled = part as u128 * 100;
        let size = whole as u128;
        let down = scaled / size;
        let rest = scaled % size;
        proof {
            vstd::arithmetic::div_mod::lemma_fundamental_div_mod(scaled as int, size as int);
            assert(2 * down * whole == 2 * (size * down)) by (nonlinear_arith)
                requires
                    size == whole,
            ;
            assert(2 * (down + 1) * whole == 2 * (size * down) + 2 * whole) by (nonlinear_arith)
                requires
                    size == whole,
            ;
        }
        if 2 * rest < size || (2 * rest == size && down % 2 == 0) {
            down
        } else {
            assert(down <= scaled) by (nonlinear_arith)
                requires
                    scaled == size * down + rest,
                    size >= 1,
                    rest >= 0,
                    down >= 0,
            ;
            down + 1
        }
    };
    proof {
        assert(is_percent(part as nat, whole as nat, r as int));
        law_percent_is_unique(
            part as nat,
            whole as nat,
            r as int,
            percent_of(part as nat, whole as nat),
        );
    }
    r
}

/// How a playlist fared: "name: found/total matched (percent%)".
pub open spec fn progress_line(name: Seq<char>, found: nat, total: nat) -> Seq<char> {
    name + ": "@ + decimal(found) + "/"@ + decimal(total) + " matched ("@ + decimal(
        percent_of(found, total) as nat,
    ) + "%)"@
}

/// Says how a playlist fared.
pub fn progress(name: &str, found: usize, total: usize) -> (r: String)
    ensures
        r@ == progress_line(name@, found as nat, total as nat),
{
    let mut r = String::from_str(name);
    r.append(": ");
    r.append(decimal_text(found as u128).as_str());
    r.append("/");
    r.append(decimal_text(total as u128).as_str());
    r.append(" matched (");
    r.append(decimal_text(percent(found, total)).as_str());
    r.append("%)");
    r
}

/// The methods that matched something, in alphabetical order, each with its count.
pub open spec fn method_counts(counts: Counts) -> Seq<Seq<char>> {
    let exact = if counts.exact > 0 {
        seq!["exact="@ + decimal(counts.exact as nat)]
    } else {
        Seq::empty()
    };
    let fuzzy = if counts.fuzzy > 0 {
        seq!["fuzzy="@ + decimal(counts.fuzzy as nat)]
    } else {
        Seq::empty()
    };
    let isrc = if counts.isrc > 0 {
        seq!["isrc="@ + decimal(counts.isrc as nat)]
    } else {
        Seq::empty()
    };
    exact + fuzzy + isrc
}

/// The methods with their counts in one line.
pub open spec fn method_line(counts: Counts) -> Seq<char> {
    let shown = method_counts(counts);
    if shown.len() == 0 {
        "none"@
    } else {
        join(shown, ", "@)
    }
}

fn show_count(name: &str, count: u128) -> (r: String)
    ensures
        r@ == name@ + decimal(count as nat),
{
    let mut r = String::from_str(name);
    r.append(decimal_text(count).as_str());
    r
}

/// Says which methods matched how much.
pub fn summary(counts: &Counts) -> (r: String)
    ensures
        r@ == method_line(*counts),
{
    let mut shown: Vec<String> = Vec::new();
    if counts.exact > 0 {
        shown.push(show_count("exact=", counts.exact));
    }
    if counts.fuzzy > 0 {
        shown.push(show_count("fuzzy=", counts.fuzzy));
    }
    if counts.isrc > 0 {
        shown.push(show_count("isrc=", counts.isrc));
    }
    assert(views(shown@) =~= method_counts(*counts));
    if shown.len() == 0 {
        String::from_str("none")
    } else {
        join_texts(&shown, ", ")
    }
}

/// The report on what came of matching a number of playlists.
pub open spec fn report_text(out: Outcome, playlists: nat) -> Seq<char> {
    "\nmatch method: "@ + method_line(out.by_method) + "\n"@ + decimal(
        files_in(out.membership@, 1).len(),
    ) + " unique files across "@ + decimal(playlists) + " playlists\n"@ + decimal(
        files_in(out.membership@, 2).len(),
    ) + " files belong to more than one playlist (stored once, tagged with all)"@
}

/// Reports on what came of matching a number of playlists.
pub fn report(out: &Outcome, playlists: usize) -> (r: String)
    ensures
        r@ == report_text(*out, playlists as nat),
{
    let unique = members(&out.membership, 1);
    let multi = members(&out.membership, 2);
    let mut r = String::from_str("\nmatch method: ");
    r.append(summary(&out.by_method).as_str());
    r.append("\n");
    r.append(decimal_text(unique.len() as u128).as_str());
    r.append(" unique files across ");
    r.append(decimal_text(playlists as u128).as_str());
    r.append(" playlists\n");
    r.append(decimal_text(multi.len() as u128).as_str());
    r.append(" files belong to more than one playlist (stored once, tagged with all)");
    r
}

/// Texts, each with a line break behind it.
pub open spec fn lines(items: Seq<Seq<char>>) -> Seq<char>
    decreases items.len(),
{
    if items.len() == 0 {
        Seq::empty()
    } else {
        lines(items.drop_last()) + items.last() + "\n"@
    }
}

/// The heading over what is missing of a playlist.
pub open spec fn heading(name: Seq<char>, count: nat) -> Seq<char> {
    "\n== "@ + name + " ("@ + decimal(count) + ") ==\n"@
}

/// What is missing, playlist by playlist.
pub open spec fn missing_text(missing: Seq<(Seq<char>, Seq<Seq<char>>)>) -> Seq<char>
    decreases missing.len(),
{
    if missing.len() == 0 {
        Seq::empty()
    } else {
        let (name, items) = missing.last();
        missing_text(missing.drop_last()) + heading(name, items.len()) + lines(items)
    }
}

/// How many tracks are missing.
pub open spec fn missing_count(missing: Seq<(Seq<char>, Seq<Seq<char>>)>) -> nat
    decreases missing.len(),
{
    if missing.len() == 0 {
        0
    } else {
        missing_count(missing.drop_last()) + missing.last().1.len()
    }
}

/// Puts texts below each other.
pub fn write_lines(items: &Vec<String>) -> (r: String)
    ensures
        r@ == lines(views(items@)),
{
    let ghost all = views(items@);
    let mut r = String::new();
    assert(r@ =~= lines(all.take(0)));
    for i in 0..items.len()
        invariant
            all == views(items@),
            r@ == lines(all.take(i as int)),
    {
        assert(all.take(i + 1).drop_last() =~= all.take(i as int));
        r.append(items[i].as_str());
        r.append("\n");
    }
    assert(all.take(all.len() as int) =~= all);
    r
}

/// Writes down what is missing, with how many tracks that are; there is nothing to write where
/// nothing is missing.
pub fn unmatched(missing: &Vec<(String, Vec<String>)>) -> (r: Option<(String, u128)>)
    ensures
        match r {
            Some((text, total)) => {
                &&& missing@.len() > 0
                &&& text@ == missing_text(missing_views(missing@))
                &&& total == missing_count(missing_views(missing@))
            },
            None => missing@.len() == 0,
        },
{
    if missing.len() == 0 {
        return None;
    }
    let ghost all = missing_views(missing@);
    let mut text = String::new();
    let mut total: u128 = 0;
    assert(text@ =~= missing_text(all.take(0)));
    let count = missing.len();
    for i in 0..count
        invariant
            count == missing@.len(),
            all == missing_views(missing@),
            text@ == missing_text(all.take(i as int)),
            total == missing_count(all.take(i as int)),
            total <= i * 0xffff_ffff_ffff_ffff,
    {
        let (name, items) = &missing[i];
        assert(all.take(i + 1).drop_last() =~= all.take(i as int));
        assert(all[i as int] == (name@, views(items@)));
        text.append("\n== ");
        text.append(name.as_str());
        text.append(" (");
        text.append(decimal_text(items.len() as u128).as_str());
        text.append(") ==\n");
        text.append(write_lines(items).as_str());
        total = total + items.len() as u128;
        assert(text@ =~= missing_text(all.take(i as int)) + heading(name@, items@.len()) + lines(
            views(items@),
        ));
    }
    assert(all.take(all.len() as int) =~= all);
    Some((text, total))
}

/// Whatever was not matched by one of the methods is reported as missing: together that is every
/// track of every playlist.
pub proof fn law_missing_and_matched_make_all(playlists: Seq<PlaylistView>, found: Seq<Found>)
    requires
        found.len() >= playlists.len(),
        forall|i: int|
            0 <= i < playlists.len() ==> (#[trigger] found[i]).len() == playlists[i].tracks.len(),
    ensures
        missing_count(missing_of(playlists, found)) + total_by(
            found,
            playlists.len(),
            Method::Isrc,
        ) + total_by(found, playlists.len(), Method::Exact) + total_by(
            found,
            playlists.len(),
            Method::Fuzzy,
        ) == track_count(playlists),
    decreases playlists.len(),
{
    if playlists.len() > 0 {
        let before = playlists.drop_last();
        let last = playlists.last();
        let n = before.len() as int;
        assert forall|i: int| 0 <= i < before.len() implies (#[trigger] found[i]).len()
            == before[i].tracks.len() by {
            assert(before[i] == playlists[i]);
        }
        law_missing_and_matched_make_all(before, found);
        law_every_track_is_accounted_for(last.tracks, found[n]);
        assert(found[n].len() == playlists[n].tracks.len());
        let missed = misses(last.tracks, found[n]);
        if missed.len() > 0 {
            let all = missing_of(before, found);
            assert(all.push((last.name, missed)).drop_last() =~= all);
        }
    }
}

/// Every item stands in a line of its own, in order.
pub proof fn law_lines_list_every_item(items: Seq<Seq<char>>)
    requires
        forall|i: int| 0 <= i < items.len() ==> !(#[trigger] items[i]).contains('\n'),
    ensures
        split(lines(items), Separator::Char('\n')) == items + seq![Seq::<char>::empty()],
    decreases items.len(),
{
    let sep = Separator::Char('\n');
    let none = Seq::<char>::empty();
    reveal_strlit("\n");
    if items.len() > 0 {
        let front = items.drop_last();
        let last = items.last();
        assert forall|i: int| 0 <= i < front.len() implies !(#[trigger] front[i]).contains(
            '\n',
        ) by {
            assert(front[i] == items[i]);
        }
        law_lines_list_every_item(front);
        lemma_split_append(lines(front), last, sep);
        assert(!items[items.len() - 1].contains('\n'));
        assert(lines(items) =~= lines(front) + last + seq!['\n'] + none);
        law_split_at_separator(lines(front) + last, '\n', none, sep);
        assert(split(lines(items), sep) =~= items + seq![none]);
    } else {
        assert(split(lines(items), sep) =~= items + seq![none]);
    }
}

proof fn lemma_split_append(a: Seq<char>, b: Seq<char>, sep: Separator)
    requires
        forall|i: int| 0 <= i < b.len() ==> !sep.covers(#[trigger] b[i]),
    ensures
        split(a + b, sep) == split(a, sep).drop_last().push(split(a, sep).last() + b),
    decreases b.len(),
{
    lemma_split_len(a, sep);
    if b.len() > 0 {
        let front = b.drop_last();
        assert forall|i: int| 0 <= i < front.len() implies !sep.covers(#[trigger] front[i]) by {
            assert(front[i] == b[i]);
        }
        lemma_split_append(a, front, sep);
        assert((a + b).drop_last() =~= a + front);
        assert(!sep.covers(b[b.len() - 1]));
        let x = split(a, sep);
        assert((x.last() + front).push(b.last()) =~= x.last() + b);
        assert((a + b).last() == b.last());
        assert(split(a + front, sep).drop_last() =~= x.drop_last());
        assert(split(a + b, sep) =~= x.drop_last().push(x.last() + b));
    } else {
        assert(a + b =~= a);
        assert(split(a, sep).last() + b =~= split(a, sep).last());
        assert(split(a, sep) =~= split(a, sep).drop_last().push(split(a, sep).last()));
    }
}

/// A share in percent is off by half a percent at most; nothing is none of it, and all is all.
pub proof fn law_percent_is_near(part: nat, whole: nat, percent: int)
    requires
        is_percent(part, whole, percent),
        part <= whole,
        whole > 0,
    ensures
        -1 * whole <= 200 * part - 2 * (percent * whole) <= whole,
        200 * part - 2 * (percent * whole) == whole || 200 * part - 2 * (percent * whole) == -1
            * whole ==> percent % 2 == 0,
        part == 0 ==> percent == 0,
        part == whole ==> percent == 100,
        0 <= percent <= 100,
{
    assert(2 * percent * whole == 2 * (percent * whole)) by (nonlinear_arith);
    assert(percent < 0 ==> 2 * (percent * whole) <= -2 * whole) by (nonlinear_arith)
        requires
            whole > 0,
    ;
    assert(percent > 100 ==> 2 * (percent * whole) >= 202 * whole) by (nonlinear_arith)
        requires
            whole > 0,
    ;
    if part == 0 {
        assert(percent > 0 ==> 2 * (percent * whole) >= 2 * whole) by (nonlinear_arith)
            requires
                whole > 0,
        ;
    }
    if part == whole {
        assert(percent < 100 ==> 2 * (percent * whole) <= 198 * whole) by (nonlinear_arith)
            requires
                whole > 0,
        ;
    }
}

/// What is reported as missing grows by a heading with the number of tracks and a line for each of
/// them, for each playlist that misses some.
pub proof fn law_missing_tracks_are_listed(
    missing: Seq<(Seq<char>, Seq<Seq<char>>)>,
    name: Seq<char>,
    items: Seq<Seq<char>>,
)
    ensures
        missing_text(missing.push((name, items))) == missing_text(missing) + (seq!['\n', '=', '=', ' ']
            + name + seq![' ', '('] + decimal(items.len()) + seq![')', ' ', '=', '=', '\n']) + lines(
            items,
        ),
        missing_count(missing.push((name, items))) == missing_count(missing) + items.len(),
        missing_text(Seq::empty()).len() == 0,
        missing_count(Seq::empty()) == 0,
{
    reveal_strlit("\n== ");
    reveal_strlit(" (");
    reveal_strlit(") ==\n");
    assert("\n== "@ =~= seq!['\n', '=', '=', ' ']);
    assert(" ("@ =~= seq![' ', '(']);
    assert(") ==\n"@ =~= seq![')', ' ', '=', '=', '\n']);
    assert(missing.push((name, items)).drop_last() =~= missing);
}

/// A method is named with its count if and only if it matched something, in alphabetical order.
pub proof fn law_methods_that_matched_are_named(counts: Counts)
    ensures
        counts.exact > 0 ==> method_counts(counts)[0] == "exact="@ + decimal(counts.exact as nat),
        counts.fuzzy > 0 ==> method_counts(counts)[if counts.exact > 0 {
            1
        } else {
            0
        }] == "fuzzy="@ + decimal(counts.fuzzy as nat),
        counts.isrc > 0 ==> method_counts(counts).last() == "isrc="@ + decimal(counts.isrc as nat),
        method_counts(counts).len() == (if counts.exact > 0 {
            1int
        } else {
            0
        }) + (if counts.fuzzy > 0 {
            1int
        } else {
            0
        }) + (if counts.isrc > 0 {
            1int
        } else {
            0
        }),
        method_counts(counts).len() == 0 ==> method_line(counts) == "none"@,
        method_counts(counts).len() > 0 ==> method_line(counts) == join(
            method_counts(counts),
            seq![',', ' '],
        ),
{
    reveal_strlit(", ");
    assert(", "@ =~= seq![',', ' ']);
    let shown = method_counts(counts);
    if counts.exact > 0 {
        assert(shown[0] == "exact="@ + decimal(counts.exact as nat));
    }
    if counts.fuzzy > 0 {
        let at: int = if counts.exact > 0 {
            1
        } else {
            0
        };
        assert(shown[at] == "fuzzy="@ + decimal(counts.fuzzy as nat));
    }
    if counts.isrc > 0 {
        assert(shown[shown.len() - 1] == "isrc="@ + decimal(counts.isrc as nat));
    }
}

/// The report says which methods matched, how many files are in some playlist, how many playlists
/// there are and how many files are in more than one.
pub proof fn law_report_says_what_was_matched(out: Outcome, playlists: nat)
    ensures
        ({
            let unique = decimal(files_in(out.membership@, 1).len());
            let multi = decimal(files_in(out.membership@, 2).len());
            let text = report_text(out, playlists);
            let a = "\nmatch method: "@ + method_line(out.by_method);
            let b = "\n"@ + unique + " unique files across "@ + decimal(playlists)
                + " playlists\n"@;
            let c = multi
                + " files belong to more than one playlist (stored once, tagged with all)"@;
            text == a + b + c
        }),
{
    let unique = decimal(files_in(out.membership@, 1).len());
    let multi = decimal(files_in(out.membership@, 2).len());
    let a = "\nmatch method: "@ + method_line(out.by_method);
    let b = "\n"@ + unique + " unique files across "@ + decimal(playlists) + " playlists\n"@;
    let c = multi + " files belong to more than one playlist (stored once, tagged with all)"@;
    assert(report_text(out, playlists) =~= a + b + c);
}

/// A playlist is said to have fared as it did: how many of its tracks were found, of how many.
pub proof fn law_progress_says_how_a_playlist_fared(name: Seq<char>, found: nat, total: nat)
    ensures
        progress_line(name, found, total) == name + (": "@ + decimal(found) + "/"@ + decimal(total)
            + " matched ("@) + (decimal(percent_of(found, total) as nat) + "%)"@),
{
    assert(progress_line(name, found, total) =~= name + (": "@ + decimal(found) + "/"@ + decimal(
        total,
    ) + " matched ("@) + (decimal(percent_of(found, total) as nat) + "%)"@));
}

} // verus!
