//! The texts that tracks are matched by, and how similar two of them are.

use rapidfuzz::distance::indel;
use regex::Regex;
use unicode_normalization::UnicodeNormalization;
use vstd::prelude::*;

use crate::noise::{without_groups, without_suffix};
use crate::order::{
    law_sorting_keeps_every_text, lemma_sort_ignores_order, sort, sort_texts, text_le,
};
use crate::text::{
    char_count, is_alphanumeric, is_ascii_char, join, join_texts, lemma_filter_all, lemma_filter_push,
    lemma_filter_subset, lemma_split_len, lemma_take_next, lower, lower_char, nonempty, split,
    to_chars, to_lower, tokenize, tokens, views, Separator,
};

verus! {

/// Present in Spotify's titles, absent from most local tags.
pub const PAREN_NOISE: &'static str = "(?i)[\\(\\[](feat|ft|with|con)\\.?[^\\)\\]]*[\\)\\]]";

/// What follows the last dash of a remastered or re-released title.
pub const SUFFIX_NOISE: &'static str = "(?i)\\s*-\\s*[^-]*\\b(remaster(ed)?|remix|version|edit|mix|mono|stereo|\\\ndeluxe|bonus|radio|single|album|anniversary)\\b.*$";

/// What `unicode_normalization` makes of a text in Normalization Form KD.
pub uninterp spec fn nfkd(text: Seq<char>) -> Seq<char>;

/// `UnicodeNormalization::nfkd`: the compatibility decomposition of a text. ASCII decomposes into
/// itself.
#[verifier::external_body]
fn decompose(text: &str) -> (r: String)
    ensures
        r@ == nfkd(text@),
        (forall|i: int| 0 <= i < text@.len() ==> is_ascii_char(#[trigger] text@[i])) ==> r@
            == text@,
{
    text.nfkd().collect()
}

/// Text of ASCII characters.
pub open spec fn is_ascii_text(s: Seq<char>) -> bool {
    forall|i: int| 0 <= i < s.len() ==> is_ascii_char(#[trigger] s[i])
}

/// What `Regex::replace_all` makes of a text.
pub uninterp spec fn regex_replace_all(
    pattern: Seq<char>,
    text: Seq<char>,
    replacement: Seq<char>,
) -> Seq<char>;

/// `Regex::new` and `Regex::replace_all`: every match of the pattern is replaced. No character
/// comes out that was neither in the text nor in the replacement. A text without a match comes
/// out as it was; a match of [`PAREN_NOISE`] begins with an opening bracket, and one of
/// [`SUFFIX_NOISE`] holds a dash. Both patterns compile.
///
/// On ASCII text a match of [`PAREN_NOISE`] reaches from an opening bracket that a guest word
/// follows to the first closing bracket behind it. One of [`SUFFIX_NOISE`] reaches from the white
/// space before a dash, behind which and before the next one a release word stands, to the end of
/// the text, and does so for the first such dash.
#[verifier::external_body]
fn replace_all(pattern: &str, text: &str, replacement: &str) -> (r: String)
    requires
        pattern@ == PAREN_NOISE@ || pattern@ == SUFFIX_NOISE@,
    ensures
        r@ == regex_replace_all(pattern@, text@, replacement@),
        forall|i: int|
            0 <= i < r@.len() ==> text@.contains(#[trigger] r@[i]) || replacement@.contains(r@[i]),
        pattern@ == PAREN_NOISE@ && !text@.contains('(') && !text@.contains('[') ==> r@ == text@,
        pattern@ == SUFFIX_NOISE@ && !text@.contains('-') ==> r@ == text@,
        pattern@ == PAREN_NOISE@ && replacement@ == seq![' '] && is_ascii_text(text@) ==> r@
            == without_groups(text@),
        pattern@ == SUFFIX_NOISE@ && replacement@ == seq![' '] && is_ascii_text(text@) ==> r@
            == without_suffix(text@),
{
    Regex::new(pattern).unwrap().replace_all(text, replacement).into_owned()
}

/// The dashes of Unicode as `-`; every other character as it is.
pub open spec fn fold_dash(c: char) -> char {
    if '\u{2010}' <= c <= '\u{2015}' || c == '\u{2212}' || c == '\u{fe58}' || c == '\u{ff0d}' {
        '-'
    } else {
        c
    }
}

/// A text with every dash as `-`.
pub open spec fn fold_dashes(s: Seq<char>) -> Seq<char> {
    s.map_values(|c: char| fold_dash(c))
}

/// Maps the dashes to `-`. Spotify writes " – 2011 Remaster" with an en dash, which Normalization
/// Form KD does not fold.
pub fn replace_dashes(text: &str) -> (r: String)
    ensures
        r@ == fold_dashes(text@),
{
    let mut r: String = String::new();
    for c in it: text.chars()
        invariant
            r@ == fold_dashes(it.seq().take(it.index())),
            it.seq() == text@,
    {
        let dash = ('\u{2010}' <= c && c <= '\u{2015}') || c == '\u{2212}' || c == '\u{fe58}' || c
            == '\u{ff0d}';
        r.push(
            if dash {
                '-'
            } else {
                c
            },
        );
    }
    r
}

/// The ASCII characters of a text in lower case.
pub open spec fn fold_ascii(s: Seq<char>) -> Seq<char> {
    to_lower(s.filter(|c: char| is_ascii_char(c)))
}

/// Drops what is not ASCII and lower-cases the rest. On decomposed text this leaves the bare
/// letter of an accented one.
pub fn keep_ascii(text: &str) -> (r: String)
    ensures
        r@ == fold_ascii(text@),
{
    let mut r: String = String::new();
    let ghost p = |c: char| is_ascii_char(c);
    proof {
        reveal(Seq::filter);
        assert(r@ =~= fold_ascii(text@.take(0)));
    }
    for c in it: text.chars()
        invariant
            p == (|c: char| is_ascii_char(c)),
            r@ == to_lower(it.seq().take(it.index()).filter(p)),
            it.seq() == text@,
    {
        proof {
            lemma_take_next(text@, it.index());
            lemma_filter_push(text@.take(it.index()), c, p);
        }
        let ghost before = text@.take(it.index()).filter(p);
        if c <= '\u{7f}' {
            r.push(lower_char(c));
            assert(r@ =~= to_lower(before.push(c)));
        }
    }
    assert(text@.take(text@.len() as int) =~= text@);
    r
}

/// The words of a text, runs of ASCII letters and digits, with one space between each two.
pub open spec fn words(s: Seq<char>) -> Seq<char> {
    join(tokens(s, Separator::NonAlphanumeric), seq![' '])
}

/// Keeps the words of a text with one space between each two.
pub fn keep_words(text: &str) -> (r: String)
    ensures
        r@ == words(text@),
{
    let found = tokenize(text, Separator::NonAlphanumeric);
    proof {
        reveal_strlit(" ");
        assert(" "@ =~= seq![' ']);
    }
    join_texts(&found, " ")
}

proof fn lemma_parts_are_empty(s: Seq<char>, sep: Separator)
    ensures
        (forall|k: int| 0 <= k < split(s, sep).len() ==> (#[trigger] split(s, sep)[k]).len() == 0)
            <==> (forall|i: int| 0 <= i < s.len() ==> sep.covers(#[trigger] s[i])),
    decreases s.len(),
{
    lemma_split_len(s, sep);
    if s.len() > 0 {
        let front = s.drop_last();
        let before = split(front, sep);
        let parts = split(s, sep);
        lemma_split_len(front, sep);
        lemma_parts_are_empty(front, sep);
        if sep.covers(s.last()) {
            if forall|k: int| 0 <= k < parts.len() ==> (#[trigger] parts[k]).len() == 0 {
                assert forall|k: int| 0 <= k < before.len() implies (
                #[trigger] before[k]).len() == 0 by {
                    assert(parts[k] == before[k]);
                }
                assert forall|i: int| 0 <= i < s.len() implies sep.covers(#[trigger] s[i]) by {
                    if i < front.len() {
                        assert(sep.covers(front[i]));
                    }
                }
            }
            if forall|i: int| 0 <= i < s.len() ==> sep.covers(#[trigger] s[i]) {
                assert forall|i: int| 0 <= i < front.len() implies sep.covers(
                    #[trigger] front[i],
                ) by {
                    assert(sep.covers(s[i]));
                }
                assert forall|k: int| 0 <= k < parts.len() implies (
                #[trigger] parts[k]).len() == 0 by {
                    if k < before.len() {
                        assert(before[k].len() == 0);
                    }
                }
            }
        } else {
            assert(parts[parts.len() - 1].len() > 0);
            assert(!sep.covers(s[s.len() - 1]));
        }
    }
}

proof fn lemma_join_nonempty(ts: Seq<Seq<char>>, sep: Seq<char>)
    requires
        ts.len() > 0,
        forall|i: int| 0 <= i < ts.len() ==> (#[trigger] ts[i]).len() > 0,
    ensures
        join(ts, sep).len() > 0,
{
    assert(ts[ts.len() - 1].len() > 0);
}

/// A text has no words if and only if it has no ASCII letter or digit.
pub proof fn law_words_are_made_of_letters_and_digits(s: Seq<char>)
    ensures
        words(s).len() == 0 <==> (forall|i: int|
            0 <= i < s.len() ==> !is_alphanumeric(#[trigger] s[i])),
{
    let sep = Separator::NonAlphanumeric;
    let parts = split(s, sep);
    let found = tokens(s, sep);
    lemma_parts_are_empty(s, sep);
    if found.len() > 0 {
        assert forall|i: int| 0 <= i < found.len() implies (#[trigger] found[i]).len() > 0 by {
            parts.lemma_filter_pred(nonempty(), i);
        }
        lemma_join_nonempty(found, seq![' ']);
        lemma_filter_subset(parts, nonempty(), 0);
        let k = choose|k: int| 0 <= k < parts.len() && parts[k] == found[0];
        assert(parts[k].len() > 0);
    } else {
        assert forall|k: int| 0 <= k < parts.len() implies (#[trigger] parts[k]).len() == 0 by {
            if parts[k].len() > 0 {
                lemma_filter_keeps(parts, nonempty(), k);
            }
        }
    }
    assert(forall|i: int|
        0 <= i < s.len() ==> (sep.covers(#[trigger] s[i]) <==> !is_alphanumeric(s[i])));
}

proof fn lemma_filter_keeps<A>(s: Seq<A>, p: spec_fn(A) -> bool, k: int)
    requires
        0 <= k < s.len(),
        p(s[k]),
    ensures
        s.filter(p).len() > 0,
    decreases s.len(),
{
    reveal(Seq::filter);
    if k < s.len() - 1 {
        lemma_filter_keeps(s.drop_last(), p, k);
    }
}

/// A text without the noise that Spotify puts behind and into titles.
pub open spec fn without_noise(s: Seq<char>) -> Seq<char> {
    without_suffix(without_groups(s))
}

/// What [`norm`] makes of a text.
pub open spec fn normal(text: Seq<char>) -> Seq<char> {
    if text.len() == 0 {
        Seq::empty()
    } else {
        words(without_noise(fold_ascii(nfkd(fold_dashes(text)))))
    }
}

/// A lower-case ASCII letter or a digit.
pub open spec fn is_word_char(c: char) -> bool {
    '0' <= c <= '9' || 'a' <= c <= 'z'
}

/// Words of lower-case ASCII letters and digits, with one space between each two and no other
/// character.
pub open spec fn is_normal(s: Seq<char>) -> bool {
    &&& forall|i: int| 0 <= i < s.len() ==> is_word_char(#[trigger] s[i]) || s[i] == ' '
    &&& s.len() > 0 ==> s[0] != ' ' && s.last() != ' '
    &&& forall|i: int| 0 < i < s.len() && #[trigger] s[i] == ' ' ==> s[i - 1] != ' '
}

/// ASCII text without a dash or an opening bracket, so that there is nothing in it to fold or to
/// strip.
pub open spec fn is_plain(s: Seq<char>) -> bool {
    &&& forall|i: int| 0 <= i < s.len() ==> is_ascii_char(#[trigger] s[i])
    &&& !s.contains('-')
    &&& !s.contains('(')
    &&& !s.contains('[')
}

/// Lower case makes no character that is not a letter.
proof fn lemma_lower_keeps(s: Seq<char>, c: char)
    requires
        !s.contains(c),
        !('a' <= c <= 'z'),
    ensures
        !to_lower(s).contains(c),
{
    if to_lower(s).contains(c) {
        let i = choose|i: int| 0 <= i < s.len() && to_lower(s)[i] == c;
        assert(s[i] != c);
    }
}

/// A nonempty word.
spec fn is_word(t: Seq<char>) -> bool {
    t.len() > 0 && forall|i: int| 0 <= i < t.len() ==> is_word_char(#[trigger] t[i])
}

proof fn lemma_join_words(ts: Seq<Seq<char>>)
    requires
        forall|i: int| 0 <= i < ts.len() ==> is_word(#[trigger] ts[i]),
    ensures
        is_normal(join(ts, seq![' '])),
        ts.len() > 0 ==> join(ts, seq![' ']).len() > 0,
    decreases ts.len(),
{
    if ts.len() > 1 {
        lemma_join_words(ts.drop_last());
        let head = join(ts.drop_last(), seq![' ']);
        let all = join(ts, seq![' ']);
        assert(all =~= head + seq![' '] + ts.last());
        assert forall|i: int| 0 <= i < all.len() implies is_word_char(#[trigger] all[i]) || all[i]
            == ' ' by {
            if i < head.len() {
                assert(all[i] == head[i]);
            } else if i > head.len() {
                assert(all[i] == ts.last()[i - head.len() - 1]);
            }
        }
        assert(all[0] == head[0]);
        assert(all.last() == ts.last().last());
        assert forall|i: int| 0 < i < all.len() && #[trigger] all[i] == ' ' implies all[i - 1]
            != ' ' by {
            if i < head.len() {
                assert(all[i] == head[i] && all[i - 1] == head[i - 1]);
            } else if i == head.len() {
                assert(all[i - 1] == head.last());
            } else {
                assert(all[i] == ts.last()[i - head.len() - 1]);
            }
        }
    }
}

/// The parts of a text hold its characters.
proof fn lemma_split_chars(s: Seq<char>, sep: Separator)
    ensures
        forall|k: int, i: int|
            0 <= k < split(s, sep).len() && 0 <= i < split(s, sep)[k].len() ==> s.contains(
                #[trigger] split(s, sep)[k][i],
            ) && !sep.covers(split(s, sep)[k][i]),
    decreases s.len(),
{
    lemma_split_len(s, sep);
    if s.len() > 0 {
        let front = s.drop_last();
        lemma_split_chars(front, sep);
        lemma_split_len(front, sep);
        let before = split(front, sep);
        let parts = split(s, sep);
        assert forall|k: int, i: int|
            0 <= k < parts.len() && 0 <= i < parts[k].len() implies s.contains(
            #[trigger] parts[k][i],
        ) && !sep.covers(parts[k][i]) by {
            if !sep.covers(s.last()) && k == parts.len() - 1 && i == before.last().len() {
                assert(parts[k][i] == s.last());
            } else {
                assert(parts[k][i] == before[k][i]);
                let j = choose|j: int| 0 <= j < front.len() && front[j] == before[k][i];
                assert(s[j] == parts[k][i]);
            }
        }
    }
}

/// The words of a text of lower-case characters are in normal form.
pub proof fn lemma_words_normal(s: Seq<char>)
    requires
        forall|i: int| 0 <= i < s.len() ==> !('A' <= #[trigger] s[i] <= 'Z'),
    ensures
        is_normal(words(s)),
{
    let sep = Separator::NonAlphanumeric;
    let ts = tokens(s, sep);
    let parts = split(s, sep);
    lemma_split_chars(s, sep);
    assert forall|k: int| 0 <= k < ts.len() implies is_word(#[trigger] ts[k]) by {
        parts.lemma_filter_pred(nonempty(), k);
        lemma_filter_subset(parts, nonempty(), k);
        let j = choose|j: int| 0 <= j < parts.len() && parts[j] == ts[k];
        assert forall|i: int| 0 <= i < ts[k].len() implies is_word_char(#[trigger] ts[k][i]) by {
            assert(s.contains(parts[j][i]));
            let m = choose|m: int| 0 <= m < s.len() && s[m] == parts[j][i];
            assert(!('A' <= s[m] <= 'Z'));
        }
    }
    lemma_join_words(ts);
}

proof fn lemma_join_push(ts: Seq<Seq<char>>, t: Seq<char>)
    ensures
        join(ts.push(t), seq![' ']) == if ts.len() == 0 {
            t
        } else {
            join(ts, seq![' ']) + seq![' '] + t
        },
{
    assert(ts.push(t).drop_last() =~= ts);
}

/// The words of the beginning of a text in normal form are that beginning, but for a space at its
/// end.
proof fn lemma_words_of_prefix(s: Seq<char>)
    requires
        forall|i: int| 0 <= i < s.len() ==> is_word_char(#[trigger] s[i]) || s[i] == ' ',
        s.len() > 0 ==> s[0] != ' ',
        forall|i: int| 0 < i < s.len() && #[trigger] s[i] == ' ' ==> s[i - 1] != ' ',
    ensures
        s.len() > 0 && s.last() == ' ' ==> words(s) == s.drop_last() && split(
            s,
            Separator::NonAlphanumeric,
        ).last().len() == 0,
        s.len() > 0 && s.last() != ' ' ==> words(s) == s && split(
            s,
            Separator::NonAlphanumeric,
        ).last().len() > 0,
        s.len() == 0 ==> words(s) == s,
    decreases s.len(),
{
    let sep = Separator::NonAlphanumeric;
    let p = nonempty();
    lemma_split_len(s, sep);
    if s.len() == 0 {
        reveal(Seq::filter);
        assert(split(s, sep) =~= Seq::<Seq<char>>::empty().push(Seq::empty()));
        lemma_filter_push(Seq::<Seq<char>>::empty(), Seq::<char>::empty(), p);
    } else {
        let front = s.drop_last();
        let c = s.last();
        lemma_words_of_prefix(front);
        lemma_split_len(front, sep);
        let before = split(front, sep);
        let w = before.last();
        let rest = before.drop_last();
        assert(before =~= rest.push(w));
        lemma_filter_push(rest, w, p);
        assert(s =~= front.push(c));
        if c == ' ' {
            lemma_filter_push(before, Seq::<char>::empty(), p);
            assert(front.last() == s[s.len() - 2]);
        } else {
            lemma_filter_push(rest, w.push(c), p);
            lemma_join_push(rest.filter(p), w);
            lemma_join_push(rest.filter(p), w.push(c));
            if front.len() == 0 {
                reveal(Seq::filter);
                assert(rest =~= Seq::<Seq<char>>::empty());
                assert(words(s) =~= s);
            } else if front.last() == ' ' {
                assert(w.push(c) =~= seq![c]);
                assert(front.drop_last().len() > 0);
                if rest.filter(p).len() == 0 {
                    assert(words(front) =~= Seq::<char>::empty());
                }
                assert(words(s) =~= front.drop_last() + seq![' '] + seq![c]);
                assert(words(s) =~= s);
            } else {
                assert(words(s) =~= words(front).push(c));
            }
        }
    }
}

/// Folds a text to a comparable ASCII key. Lossy on purpose: "Beyoncé" and "Beyonce" have to
/// collide.
///
/// The result is in normal form, and a text in normal form is left as it is. Plain text gives its
/// words in lower case, none of them dropped.
pub fn norm(text: &str) -> (r: String)
    ensures
        r@ == normal(text@),
        is_normal(r@),
        is_normal(text@) ==> r@ == text@,
        is_plain(text@) ==> r@ == words(to_lower(text@)),
        text@.len() > 0 ==> r@ == words(
            regex_replace_all(
                SUFFIX_NOISE@,
                regex_replace_all(
                    PAREN_NOISE@,
                    fold_ascii(nfkd(fold_dashes(text@))),
                    seq![' '],
                ),
                seq![' '],
            ),
        ),
        is_ascii_text(text@) && text@.len() > 0 ==> nfkd(text@) == text@,
        is_ascii_text(text@) ==> r@ == words(without_suffix(without_groups(to_lower(text@)))),
{
    if text.is_empty() {
        proof {
            lemma_words_of_prefix(text@);
            assert(to_lower(text@) =~= text@);
            assert(text@ =~= Seq::<char>::empty());
            assert(without_groups(text@) =~= text@);
        }
        return String::new();
    }
    let dashed = replace_dashes(text);
    let decomposed = decompose(dashed.as_str());
    let folded = keep_ascii(decomposed.as_str());
    proof {
        reveal_strlit(" ");
        assert(" "@ =~= seq![' ']);
    }
    let stripped = replace_all(PAREN_NOISE, folded.as_str(), " ");
    let bare = replace_all(SUFFIX_NOISE, stripped.as_str(), " ");
    proof {
        lemma_fold_ascii_lower(decomposed@);
        assert(is_ascii_text(folded@)) by {
            lemma_fold_is_ascii(decomposed@);
        }
        assert forall|i: int| 0 <= i < stripped@.len() implies is_ascii_char(
            #[trigger] stripped@[i],
        ) by {
            assert(folded@.contains(stripped@[i]) || " "@.contains(stripped@[i]));
        }
        if is_ascii_text(text@) {
            assert(dashed@ =~= text@);
            lemma_filter_all(text@, |c: char| is_ascii_char(c));
        }
        assert forall|i: int| 0 <= i < stripped@.len() implies !('A' <= #[trigger] stripped@[i]
            <= 'Z') by {
            assert(folded@.contains(stripped@[i]) || " "@.contains(stripped@[i]));
        }
        assert forall|i: int| 0 <= i < bare@.len() implies !('A' <= #[trigger] bare@[i] <= 'Z') by {
            assert(stripped@.contains(bare@[i]) || " "@.contains(bare@[i]));
        }
        lemma_words_normal(bare@);
        if is_plain(text@) {
            assert(dashed@ =~= text@);
            lemma_filter_all(text@, |c: char| is_ascii_char(c));
            lemma_lower_keeps(text@, '-');
            lemma_lower_keeps(text@, '(');
            lemma_lower_keeps(text@, '[');
        }
        if is_normal(text@) {
            assert(dashed@ =~= text@);
            lemma_fold_ascii_id(text@);
            lemma_words_of_prefix(text@);
        }
    }
    keep_words(bare.as_str())
}

proof fn lemma_fold_ascii_lower(s: Seq<char>)
    ensures
        forall|i: int| 0 <= i < fold_ascii(s).len() ==> !('A' <= #[trigger] fold_ascii(s)[i] <= 'Z'),
{
}

proof fn lemma_fold_is_ascii(s: Seq<char>)
    ensures
        is_ascii_text(fold_ascii(s)),
{
    let p = |c: char| is_ascii_char(c);
    let kept = s.filter(p);
    assert forall|i: int| 0 <= i < fold_ascii(s).len() implies is_ascii_char(
        #[trigger] fold_ascii(s)[i],
    ) by {
        s.lemma_filter_pred(p, i);
        assert(is_ascii_char(kept[i]));
    }
}

proof fn lemma_fold_ascii_id(s: Seq<char>)
    requires
        is_normal(s),
    ensures
        fold_ascii(s) == s,
{
    lemma_filter_all(s, |c: char| is_ascii_char(c));
    assert(to_lower(s) =~= s);
}

/// What [`key`] makes of an artist and a title.
pub open spec fn key_of(artist: Seq<char>, title: Seq<char>) -> Seq<char> {
    normal(artist) + seq!['|'] + normal(title)
}

/// The `artist|title` key of a track: both halves normalised. The first bar in it is the one
/// between the halves.
pub fn key(artist: &str, title: &str) -> (r: String)
    ensures
        r@ == key_of(artist@, title@),
        artist_half(r@) == normal(artist@),
{
    let mut r = norm(artist);
    let ghost half = r@;
    r.push('|');
    let title = norm(title);
    r.append(title.as_str());
    proof {
        assert(r@ =~= half + seq!['|'] + title@);
        lemma_artist_half(half, seq!['|'] + title@);
        assert(half + (seq!['|'] + title@) =~= r@);
    }
    r
}

/// The part of a text before its first bar; all of it where there is none.
pub open spec fn artist_half(key: Seq<char>) -> Seq<char>
    decreases key.len(),
{
    if key.len() == 0 || key[0] == '|' {
        Seq::empty()
    } else {
        seq![key[0]] + artist_half(key.skip(1))
    }
}

pub proof fn lemma_artist_half(half: Seq<char>, rest: Seq<char>)
    requires
        !half.contains('|'),
        rest.len() == 0 || rest[0] == '|',
    ensures
        artist_half(half + rest) == half,
    decreases half.len(),
{
    if half.len() == 0 {
        assert(half + rest =~= rest);
    } else {
        assert(half[0] != '|');
        assert((half + rest).skip(1) =~= half.skip(1) + rest);
        assert forall|i: int| 0 <= i < half.skip(1).len() implies half.skip(1)[i] != '|' by {
            assert(half[i + 1] != '|');
        }
        lemma_artist_half(half.skip(1), rest);
        assert(seq![half[0]] + half.skip(1) =~= half);
    }
}

/// The artist half of an `artist|title` key.
pub fn artist_of(key: &str) -> (r: &str)
    ensures
        r@ == artist_half(key@),
{
    let chars = to_chars(key);
    let mut n: usize = 0;
    while n < chars.len() && chars[n] != '|'
        invariant
            n <= chars@.len(),
            forall|i: int| 0 <= i < n ==> #[trigger] chars@[i] != '|',
        decreases chars@.len() - n,
    {
        n = n + 1;
    }
    proof {
        lemma_artist_half(chars@.take(n as int), chars@.skip(n as int));
        assert(chars@.take(n as int) + chars@.skip(n as int) =~= chars@);
        assert(key@.subrange(0, n as int) =~= chars@.take(n as int));
    }
    key.substring_char(0, n)
}

/// The words of a text between white space, in ascending order with one space between each two.
pub open spec fn sorted_words(s: Seq<char>) -> Seq<char> {
    join(sort(tokens(s, Separator::Whitespace)), seq![' '])
}

/// Sorts the words of a text.
pub fn token_sort(text: &str) -> (r: String)
    ensures
        r@ == sorted_words(text@),
{
    let found = tokenize(text, Separator::Whitespace);
    let sorted = sort_texts(&found);
    proof {
        reveal_strlit(" ");
        assert(" "@ =~= seq![' ']);
    }
    join_texts(&sorted, " ")
}

/// The length of the longest common subsequence of two texts.
pub open spec fn lcs(a: Seq<char>, b: Seq<char>) -> nat
    decreases a.len() + b.len(),
{
    if a.len() == 0 || b.len() == 0 {
        0
    } else if a.last() == b.last() {
        lcs(a.drop_last(), b.drop_last()) + 1
    } else {
        let x = lcs(a.drop_last(), b);
        let y = lcs(a, b.drop_last());
        if x >= y {
            x
        } else {
            y
        }
    }
}

/// A common subsequence is no longer than either text.
pub proof fn lemma_lcs_bound(a: Seq<char>, b: Seq<char>)
    ensures
        lcs(a, b) <= a.len(),
        lcs(a, b) <= b.len(),
    decreases a.len() + b.len(),
{
    if a.len() > 0 && b.len() > 0 {
        lemma_lcs_bound(a.drop_last(), b.drop_last());
        lemma_lcs_bound(a.drop_last(), b);
        lemma_lcs_bound(a, b.drop_last());
    }
}

/// A text is its own longest subsequence.
pub proof fn lemma_lcs_same(a: Seq<char>)
    ensures
        lcs(a, a) == a.len(),
    decreases a.len(),
{
    if a.len() > 0 {
        lemma_lcs_same(a.drop_last());
    }
}

/// `indel::similarity`: the lengths of both texts together less the insertions and deletions that
/// turn one into the other, which is twice the length of their longest common subsequence.
#[verifier::external_body]
fn indel_similarity(a: &str, b: &str) -> (r: usize)
    requires
        a@.len() + b@.len() <= usize::MAX,
    ensures
        r == 2 * lcs(a@, b@),
{
    indel::similarity(a.chars(), b.chars())
}

/// A share: `matched` out of `total`.
#[derive(Clone, Copy, Debug)]
pub struct Score {
    pub matched: usize,
    pub total: usize,
}

/// A share in numbers without bound.
#[verifier::ext_equal]
pub struct Share {
    pub matched: nat,
    pub total: nat,
}

impl View for Score {
    type V = Share;

    open spec fn view(&self) -> Share {
        Share { matched: self.matched as nat, total: self.total as nat }
    }
}

/// All of it, in billionths of a percent.
pub const WHOLE: u64 = 100_000_000_000;

impl Share {
    /// A share of something.
    pub open spec fn wf(self) -> bool {
        0 < self.total && self.matched <= self.total
    }

    /// At least as much as a cutoff in billionths of a percent. A share that equals the cutoff
    /// reaches it.
    pub open spec fn reaches(self, cutoff: int) -> bool {
        self.matched * WHOLE >= cutoff * self.total
    }

    /// Less than another share.
    pub open spec fn less(self, other: Share) -> bool {
        self.matched * other.total < other.matched * self.total
    }
}

impl Score {
    /// Whether the share is at least a cutoff in billionths of a percent.
    pub fn reaches(self, cutoff: u64) -> (r: bool)
        ensures
            r == self@.reaches(cutoff as int),
    {
        let matched = self.matched as u128;
        let total = self.total as u128;
        proof {
            lemma_product_fits(self.matched as int, WHOLE as int);
            lemma_product_fits(cutoff as int, self.total as int);
        }
        matched * (WHOLE as u128) >= (cutoff as u128) * total
    }

    /// Whether the share is less than another one.
    pub fn less(self, other: Score) -> (r: bool)
        ensures
            r == self@.less(other@),
    {
        proof {
            lemma_product_fits(self.matched as int, other.total as int);
            lemma_product_fits(other.matched as int, self.total as int);
        }
        (self.matched as u128) * (other.total as u128) < (other.matched as u128) * (
        self.total as u128)
    }
}

/// Two 64-bit numbers have a 128-bit product.
proof fn lemma_product_fits(a: int, b: int)
    requires
        0 <= a <= u64::MAX,
        0 <= b <= u64::MAX,
    ensures
        0 <= a * b <= u128::MAX,
{
    assert(0 <= a * b <= u64::MAX * u64::MAX) by (nonlinear_arith)
        requires
            0 <= a <= u64::MAX,
            0 <= b <= u64::MAX,
    ;
}

/// What [`ratio`] gives for two texts.
pub open spec fn similarity(a: Seq<char>, b: Seq<char>) -> Share {
    if a.len() + b.len() == 0 {
        Share { matched: 1, total: 1 }
    } else {
        Share { matched: 2 * lcs(a, b), total: a.len() + b.len() }
    }
}

/// The normalised indel similarity of two texts: twice the length of their longest common
/// subsequence out of both lengths together, as an exact share. Two empty texts are the same text.
pub fn ratio(a: &str, b: &str) -> (r: Score)
    ensures
        r@ == similarity(a@, b@),
        r@.wf(),
{
    let total = char_count(a) + char_count(b);
    if total == 0 {
        return Score { matched: 1, total: 1 };
    }
    proof {
        lemma_lcs_bound(a@, b@);
    }
    Score { matched: indel_similarity(a, b), total }
}

/// What [`token_sort_ratio`] gives for two texts.
pub open spec fn word_similarity(a: Seq<char>, b: Seq<char>) -> Share {
    similarity(sorted_words(a), sorted_words(b))
}

/// The similarity of two texts once their words are sorted: word order stops mattering, so
/// "Simon & Garfunkel" and "Garfunkel & Simon" score the same.
pub fn token_sort_ratio(a: &str, b: &str) -> (r: Score)
    ensures
        r@ == word_similarity(a@, b@),
        r@.wf(),
{
    let x = token_sort(a);
    let y = token_sort(b);
    ratio(x.as_str(), y.as_str())
}

/// What [`max_possible_ratio`] gives for two lengths.
pub open spec fn best_similarity(len_a: nat, len_b: nat) -> Share {
    if len_a + len_b == 0 {
        Share { matched: 1, total: 1 }
    } else {
        Share {
            matched: if len_a <= len_b {
                2 * len_a
            } else {
                2 * len_b
            },
            total: len_a + len_b,
        }
    }
}

/// Upper bound on the [`ratio`] of two texts from their lengths alone.
///
/// The longest common subsequence can never exceed the shorter text, so a wildly different length
/// can be rejected without looking for it. This is what keeps the fuzzy sweep over thousands of
/// keys cheap.
pub fn max_possible_ratio(len_a: usize, len_b: usize) -> (r: Score)
    requires
        len_a + len_b <= usize::MAX,
    ensures
        r@ == best_similarity(len_a as nat, len_b as nat),
        r@.wf(),
{
    let total = len_a + len_b;
    if total == 0 {
        return Score { matched: 1, total: 1 };
    }
    let shorter = if len_a <= len_b {
        len_a
    } else {
        len_b
    };
    Score { matched: 2 * shorter, total }
}

/// A share that reaches a cutoff is more than one that does not.
pub proof fn lemma_reaches_more(a: Share, b: Share, cutoff: int)
    requires
        a.wf(),
        b.wf(),
        !a.reaches(cutoff),
        b.reaches(cutoff),
    ensures
        a.less(b),
{
    let (am, at, bm, bt, w) = (
        a.matched as int,
        a.total as int,
        b.matched as int,
        b.total as int,
        WHOLE as int,
    );
    assert(am * bt < bm * at) by (nonlinear_arith)
        requires
            am * w < cutoff * at,
            bm * w >= cutoff * bt,
            0 < at,
            0 < bt,
            0 < w,
    {
        assert(am * w * bt < cutoff * at * bt);
        assert(bm * w * at >= cutoff * bt * at);
        assert((am * bt) * w < (bm * at) * w);
    }
}

/// What is less than a share is less than any that this share is not more than.
pub proof fn lemma_less_chain(a: Share, b: Share, c: Share)
    requires
        a.wf(),
        b.wf(),
        c.wf(),
    ensures
        a.less(b) && !c.less(b) ==> a.less(c),
        !b.less(a) && b.less(c) ==> a.less(c),
{
    let (am, at, bm, bt, cm, ct) = (
        a.matched as int,
        a.total as int,
        b.matched as int,
        b.total as int,
        c.matched as int,
        c.total as int,
    );
    if a.less(b) && !c.less(b) {
        assert(am * ct < cm * at) by (nonlinear_arith)
            requires
                am * bt < bm * at,
                bm * ct <= cm * bt,
                0 < at,
                0 < bt,
                0 < ct,
        {
            assert((am * bt) * ct < (bm * at) * ct);
            assert((bm * ct) * at <= (cm * bt) * at);
            assert((am * ct) * bt < (cm * at) * bt);
        }
    }
    if !b.less(a) && b.less(c) {
        assert(am * ct < cm * at) by (nonlinear_arith)
            requires
                am * bt <= bm * at,
                bm * ct < cm * bt,
                0 < at,
                0 < bt,
                0 < ct,
        {
            assert((am * bt) * ct <= (bm * at) * ct);
            assert((bm * ct) * at < (cm * bt) * at);
            assert((am * ct) * bt < (cm * at) * bt);
        }
    }
}

/// The length bound is conservative: no two texts are more alike than it says, so where it does
/// not reach a cutoff, the texts do not either.
pub proof fn law_length_bound_is_conservative(a: Seq<char>, b: Seq<char>, cutoff: nat)
    ensures
        !best_similarity(a.len(), b.len()).less(similarity(a, b)),
        !best_similarity(a.len(), b.len()).reaches(cutoff as int) ==> !similarity(a, b).reaches(
            cutoff as int,
        ),
{
    lemma_lcs_bound(a, b);
    let bound = best_similarity(a.len(), b.len());
    let true_score = similarity(a, b);
    let (m, n, t, w) = (
        true_score.matched as int,
        bound.matched as int,
        bound.total as int,
        WHOLE as int,
    );
    assert(m <= n);
    assert(m * t <= n * t && m * w <= n * w) by (nonlinear_arith)
        requires
            m <= n,
            0 <= t,
            0 <= w,
    ;
}

/// Texts with the same words, each as often, match in full, in whatever order the words stand.
pub proof fn law_word_order_is_ignored(a: Seq<char>, b: Seq<char>)
    requires
        tokens(a, Separator::Whitespace).to_multiset() == tokens(
            b,
            Separator::Whitespace,
        ).to_multiset(),
    ensures
        word_similarity(a, b).matched == word_similarity(a, b).total,
        word_similarity(a, b).reaches(WHOLE as int),
{
    lemma_sort_ignores_order(tokens(a, Separator::Whitespace), tokens(b, Separator::Whitespace));
    lemma_lcs_same(sorted_words(a));
    let s = word_similarity(a, b);
    assert(s.matched == s.total);
    assert(s.matched * WHOLE == WHOLE * s.total) by (nonlinear_arith)
        requires
            s.matched == s.total,
    ;
}

/// The candidate at `i` reaches the cutoff, none scores more, and none before it scores as much.
pub open spec fn is_best(
    query: Seq<char>,
    candidates: Seq<Seq<char>>,
    cutoff: int,
    i: int,
) -> bool {
    &&& 0 <= i < candidates.len()
    &&& word_similarity(query, candidates[i]).reaches(cutoff)
    &&& forall|j: int|
        0 <= j < candidates.len() ==> !word_similarity(query, candidates[i]).less(
            word_similarity(query, #[trigger] candidates[j]),
        )
    &&& forall|j: int|
        0 <= j < i ==> word_similarity(query, #[trigger] candidates[j]).less(
            word_similarity(query, candidates[i]),
        )
}

/// No candidate reaches the cutoff.
pub open spec fn none_reaches(query: Seq<char>, candidates: Seq<Seq<char>>, cutoff: int) -> bool {
    forall|j: int|
        0 <= j < candidates.len() ==> !word_similarity(query, #[trigger] candidates[j]).reaches(
            cutoff,
        )
}

/// There is at most one best candidate.
pub proof fn law_best_is_unique(
    query: Seq<char>,
    candidates: Seq<Seq<char>>,
    cutoff: int,
    i: int,
    j: int,
)
    requires
        is_best(query, candidates, cutoff, i),
        is_best(query, candidates, cutoff, j),
    ensures
        i == j,
{
    if i < j {
        assert(word_similarity(query, candidates[i]).less(word_similarity(query, candidates[j])));
    } else if j < i {
        assert(word_similarity(query, candidates[j]).less(word_similarity(query, candidates[i])));
    }
}

/// The candidate whose words are most like those of the query, with its score; the first of them
/// where several are. There is none where no candidate reaches the cutoff, which is in billionths
/// of a percent.
pub fn best_match<'a>(query: &str, candidates: &'a Vec<String>, cutoff: u64) -> (r: Option<
    (&'a String, Score),
>)
    ensures
        match r {
            Some((found, score)) => exists|i: int|
                {
                    &&& #[trigger] is_best(query@, views(candidates@), cutoff as int, i)
                    &&& found == candidates@[i]
                    &&& score@ == word_similarity(query@, candidates@[i]@)
                },
            None => none_reaches(query@, views(candidates@), cutoff as int),
        },
{
    let sorted_query = token_sort(query);
    let query_len = char_count(sorted_query.as_str());
    let ghost all = views(candidates@);
    let mut best: Option<(usize, Score)> = None;
    for k in 0..candidates.len()
        invariant
            all == views(candidates@),
            sorted_query@ == sorted_words(query@),
            query_len == sorted_query@.len(),
            query_len <= isize::MAX,
            match best {
                Some((i, score)) => {
                    &&& i < k
                    &&& score@ == word_similarity(query@, all[i as int])
                    &&& score@.wf()
                    &&& is_best(query@, all.take(k as int), cutoff as int, i as int)
                },
                None => none_reaches(query@, all.take(k as int), cutoff as int),
            },
    {
        let sorted = token_sort(candidates[k].as_str());
        let bound = max_possible_ratio(query_len, char_count(sorted.as_str()));
        let ghost here = word_similarity(query@, all[k as int]);
        proof {
            lemma_share_wf(sorted_query@, sorted@);
            law_length_bound_is_conservative(sorted_query@, sorted@, cutoff as nat);
            lemma_take_next(all, k as int);
            assert forall|j: int| 0 <= j < k implies #[trigger] all.take(k + 1)[j] == all.take(
                k as int,
            )[j] by {}
            if let Some((i, score)) = best {
                assert(all.take(k as int)[i as int] == all[i as int]);
                if !here.reaches(cutoff as int) {
                    lemma_reaches_more(here, score@, cutoff as int);
                    assert(!score@.less(here));
                }
                assert forall|j: int| 0 <= j < k && score@.less(here) implies word_similarity(
                    query@,
                    #[trigger] all[j],
                ).less(here) && !here.less(word_similarity(query@, all[j])) by {
                    assert(all.take(k as int)[j] == all[j]);
                    lemma_share_wf(sorted_query@, sorted_words(all[j]));
                    lemma_less_chain(word_similarity(query@, all[j]), score@, here);
                }
            } else {
                assert forall|j: int| 0 <= j < k && here.reaches(
                    cutoff as int,
                ) implies word_similarity(query@, #[trigger] all[j]).less(here) by {
                    assert(all.take(k as int)[j] == all[j]);
                    lemma_share_wf(sorted_query@, sorted_words(all[j]));
                    lemma_reaches_more(word_similarity(query@, all[j]), here, cutoff as int);
                }
            }
        }
        if bound.reaches(cutoff) {
            let score = ratio(sorted_query.as_str(), sorted.as_str());
            let better = match best {
                Some((_, held)) => held.less(score),
                None => true,
            };
            if score.reaches(cutoff) && better {
                best = Some((k, score));
            }
        }
    }
    assert(all.take(candidates@.len() as int) =~= all);
    match best {
        Some((i, score)) => Some((&candidates[i], score)),
        None => None,
    }
}

/// A similarity is a share of something.
pub proof fn lemma_share_wf(a: Seq<char>, b: Seq<char>)
    ensures
        similarity(a, b).wf(),
{
    lemma_lcs_bound(a, b);
}

/// Two texts match in full if and only if they have the same words, and in part by the characters
/// that they have in common in the same order, counted on both sides.
pub proof fn law_full_match_means_same_words(a: Seq<char>, b: Seq<char>)
    ensures
        word_similarity(a, b).matched <= word_similarity(a, b).total,
        word_similarity(a, b).matched == word_similarity(a, b).total <==> sorted_words(a)
            == sorted_words(b),
        word_similarity(a, b) == word_similarity(b, a),
        sorted_words(a).len() + sorted_words(b).len() > 0 ==> word_similarity(a, b).total
            == sorted_words(a).len() + sorted_words(b).len() && word_similarity(a, b).matched == 2
            * lcs(sorted_words(a), sorted_words(b)),
{
    let x = sorted_words(a);
    let y = sorted_words(b);
    lemma_lcs_bound(x, y);
    lemma_lcs_symmetric(x, y);
    lemma_lcs_same(x);
    if x.len() + y.len() == 0 {
        assert(x =~= y);
    } else if 2 * lcs(x, y) == x.len() + y.len() {
        lemma_lcs_full(x, y);
    }
}

proof fn lemma_lcs_symmetric(a: Seq<char>, b: Seq<char>)
    ensures
        lcs(a, b) == lcs(b, a),
    decreases a.len() + b.len(),
{
    if a.len() > 0 && b.len() > 0 {
        lemma_lcs_symmetric(a.drop_last(), b.drop_last());
        lemma_lcs_symmetric(a.drop_last(), b);
        lemma_lcs_symmetric(a, b.drop_last());
    }
}

proof fn lemma_lcs_full(a: Seq<char>, b: Seq<char>)
    requires
        lcs(a, b) == a.len(),
        lcs(a, b) == b.len(),
    ensures
        a == b,
    decreases a.len(),
{
    if a.len() > 0 && b.len() > 0 {
        lemma_lcs_bound(a.drop_last(), b);
        lemma_lcs_bound(a, b.drop_last());
        lemma_lcs_full(a.drop_last(), b.drop_last());
        assert(a =~= a.drop_last().push(a.last()));
        assert(b =~= b.drop_last().push(b.last()));
    } else {
        assert(a =~= b);
    }
}

/// What stands before the first bar of a key is the artist half, and all of a text without a bar.
pub proof fn law_artist_half_ends_at_the_bar(artist: Seq<char>, title: Seq<char>)
    requires
        !artist.contains('|'),
    ensures
        artist_half(artist + seq!['|'] + title) == artist,
        artist_half(artist) == artist,
{
    lemma_artist_half(artist, seq!['|'] + title);
    lemma_artist_half(artist, Seq::empty());
    assert(artist + (seq!['|'] + title) =~= artist + seq!['|'] + title);
    assert(artist + Seq::<char>::empty() =~= artist);
}

/// Sorting the words of a text keeps every word, as often as it is there, and puts them in
/// ascending order with one space between each two.
pub proof fn law_sorted_words_are_the_words(s: Seq<char>)
    ensures
        exists|found: Seq<Seq<char>>|
            {
                &&& sorted_words(s) == #[trigger] join(found, seq![' '])
                &&& found.to_multiset() == tokens(s, Separator::Whitespace).to_multiset()
                &&& forall|i: int, j: int|
                    0 <= i < j < found.len() ==> text_le(#[trigger] found[i], #[trigger] found[j])
            },
{
    let words = tokens(s, Separator::Whitespace);
    law_sorting_keeps_every_text(words);
    assert(sorted_words(s) == join(sort(words), seq![' ']));
}

/// A score says what share matched.
pub proof fn law_score_says_what_matched(score: Score, other: Score, cutoff: u64)
    ensures
        score@.matched == score.matched,
        score@.total == score.total,
        score@.reaches(cutoff as int) <==> score.matched * 100_000_000_000 >= cutoff * score.total,
        score@.less(other@) <==> score.matched * other.total < other.matched * score.total,
{
}

} // verus!
