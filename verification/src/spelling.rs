//! What the normal form of a name ignores, and what it keeps.

use vstd::prelude::*;

use crate::matching::{
    artist_half, fold_ascii, fold_dashes, is_ascii_text, is_normal, key_of, lemma_artist_half,
    lemma_words_normal, nfkd, normal, words,
};
use crate::noise::{
    group_len, is_free_of_guests, is_free_of_suffix, is_group, law_noise_is_stripped,
    lemma_groups_after, lemma_suffix_free, starts_suffix, without_groups, without_suffix,
};
use crate::text::{
    is_alphanumeric, is_ascii_char, is_whitespace, law_join_in_parts, law_split_at_separator,
    lemma_filter_all, lemma_filter_push, lemma_split_none, nonempty, split, to_lower, tokens,
    trim_end, Separator,
};

verus! {

/// ASCII text without upper-case letters.
pub open spec fn is_folded(s: Seq<char>) -> bool {
    &&& is_ascii_text(s)
    &&& forall|i: int| 0 <= i < s.len() ==> !('A' <= #[trigger] s[i] <= 'Z')
}

/// Words are set apart by whatever is no letter or digit, and each such character does no more
/// than that.
pub proof fn law_words_are_set_apart(a: Seq<char>, c: char, b: Seq<char>)
    requires
        !is_alphanumeric(c),
    ensures
        words(a + seq![c] + b) == if words(a).len() == 0 {
            words(b)
        } else if words(b).len() == 0 {
            words(a)
        } else {
            words(a) + seq![' '] + words(b)
        },
{
    let sep = Separator::NonAlphanumeric;
    law_split_at_separator(a, c, b, sep);
    Seq::filter_distributes_over_add(split(a, sep), split(b, sep), nonempty());
    law_join_in_parts(tokens(a, sep), tokens(b, sep), seq![' ']);
    lemma_no_words(a);
    lemma_no_words(b);
}

proof fn lemma_no_words(s: Seq<char>)
    ensures
        words(s).len() == 0 <==> tokens(s, Separator::NonAlphanumeric).len() == 0,
{
    let sep = Separator::NonAlphanumeric;
    let found = tokens(s, sep);
    if found.len() > 0 {
        split(s, sep).lemma_filter_pred(nonempty(), found.len() - 1);
    }
}

/// A run of letters and digits is a word.
pub proof fn law_letters_and_digits_are_a_word(s: Seq<char>)
    requires
        forall|i: int| 0 <= i < s.len() ==> is_alphanumeric(#[trigger] s[i]),
    ensures
        words(s) == s,
{
    let sep = Separator::NonAlphanumeric;
    lemma_split_none(s, sep);
    let none = Seq::<Seq<char>>::empty();
    assert(seq![s] =~= none.push(s));
    lemma_filter_all(none, nonempty());
    lemma_filter_push(none, s, nonempty());
    if s.len() == 0 {
        assert(words(s) =~= s);
    }
}

/// Space at the end of a text makes no word.
proof fn lemma_words_trimmed(s: Seq<char>)
    ensures
        words(trim_end(s).push(' ')) == words(s),
        words(trim_end(s)) == words(s),
    decreases s.len(),
{
    let none = Seq::<char>::empty();
    law_letters_and_digits_are_a_word(none);
    if s.len() > 0 && is_whitespace(s.last()) {
        let front = s.drop_last();
        lemma_words_trimmed(front);
        assert(s =~= front + seq![s.last()] + none);
        law_words_are_set_apart(front, s.last(), none);
        if words(front).len() == 0 {
            assert(words(front) =~= none);
        }
    } else {
        assert(s.push(' ') =~= s + seq![' '] + none);
        law_words_are_set_apart(s, ' ', none);
        if words(s).len() == 0 {
            assert(words(s) =~= none);
        }
    }
}

/// The normal form of folded text that the decomposition leaves as it is, as it does ASCII, is made
/// of the words that are left when every bracket with guests is stripped and then what is said of
/// a release.
pub proof fn law_both_kinds_of_noise_are_stripped(s: Seq<char>)
    requires
        is_folded(s),
        nfkd(s) == s,
    ensures
        normal(s) == words(without_suffix(without_groups(s))),
{
    if s.len() > 0 {
        assert(fold_dashes(s) =~= s);
        lemma_filter_all(s, |c: char| is_ascii_char(c));
        assert(to_lower(s) =~= s);
    } else {
        lemma_suffix_free(s);
        law_letters_and_digits_are_a_word(s);
        assert(without_groups(s) =~= s);
        assert(s =~= Seq::<char>::empty());
    }
}

/// Both kinds of noise are stripped independently of each other: a bracket with guests that is put
/// into a name without noise, and something said of a release that is put behind it, together or
/// alone, leave the normal form of the name as it was.
pub proof fn law_noise_does_not_change_the_name(
    a: Seq<char>,
    group: Seq<char>,
    b: Seq<char>,
    suffix: Seq<char>,
)
    requires
        is_folded(a),
        is_folded(group),
        is_folded(b),
        is_folded(suffix),
        is_free_of_guests(a),
        is_free_of_guests(b),
        is_free_of_guests(suffix),
        is_free_of_suffix(a + seq![' '] + b),
        is_group(group),
        starts_suffix(suffix, 0),
        nfkd(a + seq![' '] + b) == a + seq![' '] + b,
        nfkd(a + group + b) == a + group + b,
        nfkd(a + seq![' '] + b + suffix) == a + seq![' '] + b + suffix,
        nfkd(a + group + b + suffix) == a + group + b + suffix,
    ensures
        normal(a + seq![' '] + b) == words(a + seq![' '] + b),
        normal(a + group + b) == normal(a + seq![' '] + b),
        normal(a + seq![' '] + b + suffix) == normal(a + seq![' '] + b),
        normal(a + group + b + suffix) == normal(a + seq![' '] + b),
{
    let name = a + seq![' '] + b;
    law_noise_is_stripped(a, group, b, suffix);
    law_both_kinds_of_noise_are_stripped(name);
    law_both_kinds_of_noise_are_stripped(a + group + b);
    law_both_kinds_of_noise_are_stripped(name + suffix);
    law_both_kinds_of_noise_are_stripped(a + group + b + suffix);
    lemma_words_trimmed(name);
}

/// A name without noise keeps all of its words, brackets and dashes or not.
pub proof fn law_name_without_noise_keeps_its_words(s: Seq<char>)
    requires
        is_folded(s),
        is_free_of_guests(s),
        is_free_of_suffix(s),
        nfkd(s) == s,
    ensures
        normal(s) == words(s),
{
    let none = Seq::<char>::empty();
    law_both_kinds_of_noise_are_stripped(s);
    lemma_groups_after(s, none);
    assert(s + none =~= s);
    assert(without_groups(none) == none);
    lemma_suffix_free(s);
}

/// Case makes no difference.
pub proof fn law_case_is_ignored(s: Seq<char>)
    requires
        is_ascii_text(s),
        nfkd(s) == s,
        nfkd(to_lower(s)) == to_lower(s),
    ensures
        normal(s) == normal(to_lower(s)),
{
    let t = to_lower(s);
    assert(is_ascii_text(t)) by {
        assert forall|i: int| 0 <= i < t.len() implies is_ascii_char(#[trigger] t[i]) by {
            assert(is_ascii_char(s[i]));
        }
    }
    assert(fold_dashes(s) =~= s);
    assert(fold_dashes(t) =~= t);
    lemma_filter_all(s, |c: char| is_ascii_char(c));
    lemma_filter_all(t, |c: char| is_ascii_char(c));
    assert(to_lower(t) =~= t);
}

/// Every dash is as good as another.
pub proof fn law_dashes_are_alike(a: Seq<char>, dash: char, b: Seq<char>)
    requires
        '\u{2010}' <= dash <= '\u{2015}' || dash == '\u{2212}' || dash == '\u{fe58}' || dash
            == '\u{ff0d}',
    ensures
        normal(a + seq![dash] + b) == normal(a + seq!['-'] + b),
{
    assert(fold_dashes(a + seq![dash] + b) =~= fold_dashes(a + seq!['-'] + b));
}

/// Names that decompose into the same ASCII characters, whatever accents go with them, have the
/// same normal form.
pub proof fn law_accents_are_ignored(x: Seq<char>, y: Seq<char>)
    requires
        x.len() > 0,
        y.len() > 0,
        nfkd(fold_dashes(x)).filter(|c: char| is_ascii_char(c)) == nfkd(fold_dashes(y)).filter(
            |c: char| is_ascii_char(c),
        ),
    ensures
        normal(x) == normal(y),
{
}

/// Every normal form is in normal form.
pub proof fn law_normal_form_is_normal(s: Seq<char>)
    ensures
        is_normal(normal(s)),
{
    if s.len() > 0 {
        let folded = fold_ascii(nfkd(fold_dashes(s)));
        let open = without_groups(folded);
        let bare = without_suffix(open);
        lemma_groups_chars(folded);
        lemma_trim_end_chars(open);
        assert forall|i: int| 0 <= i < bare.len() implies !('A' <= #[trigger] bare[i] <= 'Z') by {
            lemma_suffix_chars(open, i);
            if open.contains(bare[i]) {
                let j = choose|j: int| 0 <= j < open.len() && open[j] == bare[i];
                if folded.contains(open[j]) {
                    let k = choose|k: int| 0 <= k < folded.len() && folded[k] == open[j];
                    assert(!('A' <= folded[k] <= 'Z'));
                }
            }
        }
        lemma_words_normal(bare);
    }
}

proof fn lemma_groups_chars(s: Seq<char>)
    ensures
        forall|i: int|
            0 <= i < without_groups(s).len() ==> #[trigger] without_groups(s)[i] == ' '
                || s.contains(without_groups(s)[i]),
    decreases s.len(),
{
    if s.len() > 0 {
        let n = if group_len(s) > 0 {
            group_len(s) as int
        } else {
            1
        };
        let rest = s.skip(n);
        lemma_groups_chars(rest);
        assert forall|i: int| 0 <= i < without_groups(s).len() implies #[trigger] without_groups(
            s,
        )[i] == ' ' || s.contains(without_groups(s)[i]) by {
            if i > 0 {
                let c = without_groups(rest)[i - 1];
                assert(without_groups(s)[i] == c);
                if rest.contains(c) {
                    let j = choose|j: int| 0 <= j < rest.len() && rest[j] == c;
                    assert(s[j + n] == c);
                }
            } else if group_len(s) == 0 {
                assert(s[0] == without_groups(s)[0]);
            }
        }
    }
}

proof fn lemma_trim_end_chars(s: Seq<char>)
    ensures
        trim_end(s).len() <= s.len(),
        forall|i: int| 0 <= i < trim_end(s).len() ==> #[trigger] trim_end(s)[i] == s[i],
    decreases s.len(),
{
    if s.len() > 0 && is_whitespace(s.last()) {
        lemma_trim_end_chars(s.drop_last());
    }
}

proof fn lemma_suffix_chars(s: Seq<char>, i: int)
    requires
        0 <= i < without_suffix(s).len(),
    ensures
        without_suffix(s)[i] == ' ' || s.contains(without_suffix(s)[i]),
{
    let dash = crate::noise::first_suffix(s, 0);
    if dash < s.len() {
        let head = s.take(dash as int);
        lemma_trim_end_chars(head);
        if i < trim_end(head).len() {
            assert(s[i] == without_suffix(s)[i]);
        }
    } else {
        assert(s[i] == without_suffix(s)[i]);
    }
}

/// Tracks have the same key if and only if artist and title have the same normal form, each by
/// itself, and the artist half of the key is the normal form of the artist.
pub proof fn law_keys_tell_names_apart(
    artist: Seq<char>,
    title: Seq<char>,
    other_artist: Seq<char>,
    other_title: Seq<char>,
)
    ensures
        key_of(artist, title) == key_of(other_artist, other_title) <==> normal(artist) == normal(
            other_artist,
        ) && normal(title) == normal(other_title),
        artist_half(key_of(artist, title)) == normal(artist),
{
    lemma_key_halves(artist, title);
    lemma_key_halves(other_artist, other_title);
    if key_of(artist, title) == key_of(other_artist, other_title) {
        let n = normal(artist).len() as int + 1;
        assert(key_of(artist, title).skip(n) =~= normal(title));
        assert(key_of(other_artist, other_title).skip(n) =~= normal(other_title));
    }
}

proof fn lemma_key_halves(artist: Seq<char>, title: Seq<char>)
    ensures
        artist_half(key_of(artist, title)) == normal(artist),
{
    law_normal_form_is_normal(artist);
    assert(!normal(artist).contains('|'));
    let rest = seq!['|'] + normal(title);
    lemma_artist_half(normal(artist), rest);
    assert(normal(artist) + rest =~= key_of(artist, title));
}

} // verus!
