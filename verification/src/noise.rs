//! What Spotify puts into and behind titles, and most local tags do not have: bracketed guests,
//! and what is said of a release.

use vstd::prelude::*;

use crate::text::{begins_with, is_alphanumeric, occurs_at, to_lower, trim_end};

verus! {

/// The words that a bracket with guests begins with.
pub open spec fn guest_words() -> Seq<Seq<char>> {
    seq!["feat"@, "ft"@, "with"@, "con"@]
}

/// An opening bracket.
pub open spec fn is_opening(c: char) -> bool {
    c == '(' || c == '['
}

/// A closing bracket.
pub open spec fn is_closing(c: char) -> bool {
    c == ')' || c == ']'
}

/// Whether a text begins with a guest word, whatever the case.
pub open spec fn names_guests(s: Seq<char>) -> bool {
    exists|w: int|
        0 <= w < guest_words().len() && begins_with(to_lower(s), #[trigger] guest_words()[w])
}

/// How many characters stand before the first closing bracket.
pub open spec fn to_closing(s: Seq<char>) -> nat
    decreases s.len(),
{
    if s.len() == 0 || is_closing(s[0]) {
        0
    } else {
        1 + to_closing(s.skip(1))
    }
}

/// The length of the bracket with guests that a text begins with; 0 where it does not begin with
/// one. It ends at the first closing bracket, of whatever kind.
pub open spec fn group_len(s: Seq<char>) -> nat {
    if s.len() > 0 && is_opening(s[0]) && names_guests(s.skip(1)) && to_closing(s.skip(1)) + 1
        < s.len() {
        to_closing(s.skip(1)) + 2
    } else {
        0
    }
}

/// A text with a space for each bracket with guests.
pub open spec fn without_groups(s: Seq<char>) -> Seq<char>
    decreases s.len(),
{
    if s.len() == 0 {
        Seq::empty()
    } else if group_len(s) > 0 {
        seq![' '] + without_groups(s.skip(group_len(s) as int))
    } else {
        seq![s[0]] + without_groups(s.skip(1))
    }
}

/// The words that say something of a release.
pub open spec fn release_words() -> Seq<Seq<char>> {
    seq![
        "remaster"@,
        "remastered"@,
        "remix"@,
        "version"@,
        "edit"@,
        "mix"@,
        "mono"@,
        "stereo"@,
        "\ndeluxe"@,
        "bonus"@,
        "radio"@,
        "single"@,
        "album"@,
        "anniversary"@,
    ]
}

/// An ASCII letter or digit, or an underscore.
pub open spec fn is_word_part(c: char) -> bool {
    is_alphanumeric(c) || c == '_'
}

/// Whether a word begins or ends at a place.
pub open spec fn is_edge(s: Seq<char>, i: int) -> bool {
    (0 < i <= s.len() && is_word_part(s[i - 1])) != (0 <= i < s.len() && is_word_part(s[i]))
}

/// Whether a release word stands at a place behind a dash, whatever the case: with no other dash
/// between the two and no line break behind it.
pub open spec fn release_at(s: Seq<char>, dash: int, w: int, at: int) -> bool {
    &&& 0 <= w < release_words().len()
    &&& dash < at
    &&& occurs_at(to_lower(s), release_words()[w], at)
    &&& is_edge(s, at)
    &&& is_edge(s, at + release_words()[w].len())
    &&& forall|j: int| dash < j < at ==> #[trigger] s[j] != '-'
    &&& forall|j: int|
        at + release_words()[w].len() <= j < s.len() ==> #[trigger] s[j] != '\n'
}

/// Whether what a dash sets off says something of a release.
pub open spec fn starts_suffix(s: Seq<char>, dash: int) -> bool {
    &&& 0 <= dash < s.len()
    &&& s[dash] == '-'
    &&& exists|w: int, at: int| #[trigger] release_at(s, dash, w, at)
}

/// The first dash from a place on that sets off something said of a release; the end of the text
/// where there is none.
pub open spec fn first_suffix(s: Seq<char>, from: nat) -> nat
    decreases s.len() - from,
{
    if from >= s.len() {
        s.len()
    } else if starts_suffix(s, from as int) {
        from
    } else {
        first_suffix(s, from + 1)
    }
}

/// A text with a space for what is said of a release, the dash before that and the white space
/// before the dash.
pub open spec fn without_suffix(s: Seq<char>) -> Seq<char> {
    let dash = first_suffix(s, 0);
    if dash < s.len() {
        trim_end(s.take(dash as int)).push(' ')
    } else {
        s
    }
}

/// No opening bracket is followed by a guest word.
pub open spec fn is_free_of_guests(s: Seq<char>) -> bool {
    forall|i: int|
        0 <= i < s.len() && is_opening(#[trigger] s[i]) ==> !names_guests(s.skip(i + 1))
}

/// No dash sets off anything said of a release.
pub open spec fn is_free_of_suffix(s: Seq<char>) -> bool {
    forall|d: int| !#[trigger] starts_suffix(s, d)
}

/// A bracket with guests, from the opening to the closing bracket.
pub open spec fn is_group(g: Seq<char>) -> bool {
    &&& g.len() >= 2
    &&& is_opening(g[0])
    &&& is_closing(g.last())
    &&& names_guests(g.skip(1))
    &&& forall|i: int| 0 < i < g.len() - 1 ==> !is_closing(#[trigger] g[i])
}

proof fn lemma_guest_words()
    ensures
        forall|w: int, i: int|
            0 <= w < guest_words().len() && 0 <= i < guest_words()[w].len() ==> 'a'
                <= #[trigger] guest_words()[w][i] <= 'z',
        forall|w: int| 0 <= w < guest_words().len() ==> (#[trigger] guest_words()[w]).len() > 0,
{
    reveal_strlit("feat");
    reveal_strlit("ft");
    reveal_strlit("with");
    reveal_strlit("con");
    assert forall|w: int, i: int|
        0 <= w < guest_words().len() && 0 <= i < guest_words()[w].len() implies 'a'
        <= #[trigger] guest_words()[w][i] <= 'z' by {
        assert(w == 0 || w == 1 || w == 2 || w == 3);
        assert(i == 0 || i == 1 || i == 2 || i == 3);
    }
}

proof fn lemma_release_words()
    ensures
        forall|w: int, i: int|
            0 <= w < release_words().len() && 0 <= i < release_words()[w].len()
                ==> #[trigger] release_words()[w][i] != '-',
        forall|w: int| 0 <= w < release_words().len() ==> (#[trigger] release_words()[w]).len() > 0,
{
    reveal_strlit("remaster");
    reveal_strlit("remastered");
    reveal_strlit("remix");
    reveal_strlit("version");
    reveal_strlit("edit");
    reveal_strlit("mix");
    reveal_strlit("mono");
    reveal_strlit("stereo");
    reveal_strlit("\ndeluxe");
    reveal_strlit("bonus");
    reveal_strlit("radio");
    reveal_strlit("single");
    reveal_strlit("album");
    reveal_strlit("anniversary");
    assert forall|w: int, i: int|
        0 <= w < release_words().len() && 0 <= i < release_words()[w].len() implies
        #[trigger] release_words()[w][i] != '-' by {
        let word = release_words()[w];
        assert(w == 0 || w == 1 || w == 2 || w == 3 || w == 4 || w == 5 || w == 6 || w == 7 || w
            == 8 || w == 9 || w == 10 || w == 11 || w == 12 || w == 13);
        assert(i == 0 || i == 1 || i == 2 || i == 3 || i == 4 || i == 5 || i == 6 || i == 7 || i
            == 8 || i == 9 || i == 10);
    }
}

/// A guest word does not reach beyond a character that is no letter.
proof fn lemma_guests_stay_inside(a: Seq<char>, t: Seq<char>)
    requires
        t.len() == 0 || !('a' <= t[0] <= 'z' || 'A' <= t[0] <= 'Z'),
    ensures
        names_guests(a + t) == names_guests(a),
{
    lemma_guest_words();
    assert(to_lower(a + t) =~= to_lower(a) + to_lower(t));
    if names_guests(a + t) {
        let w = choose|w: int|
            0 <= w < guest_words().len() && begins_with(
                to_lower(a + t),
                #[trigger] guest_words()[w],
            );
        let word = guest_words()[w];
        let whole = to_lower(a + t);
        assert(whole.subrange(0, word.len() as int) == word);
        if word.len() > a.len() {
            assert(word[a.len() as int] == whole[a.len() as int]);
            assert(whole[a.len() as int] == to_lower(t)[0]);
        }
        assert(to_lower(a).subrange(0, word.len() as int) =~= word);
        assert(begins_with(to_lower(a), guest_words()[w]));
    }
    if names_guests(a) {
        let w = choose|w: int|
            0 <= w < guest_words().len() && begins_with(to_lower(a), #[trigger] guest_words()[w]);
        let word = guest_words()[w];
        assert(to_lower(a + t).subrange(0, word.len() as int) =~= to_lower(a).subrange(
            0,
            word.len() as int,
        ));
        assert(begins_with(to_lower(a + t), guest_words()[w]));
    }
}

/// What has no guests in it stays as it is, whatever follows.
pub proof fn lemma_groups_after(a: Seq<char>, t: Seq<char>)
    requires
        is_free_of_guests(a),
        t.len() == 0 || !('a' <= t[0] <= 'z' || 'A' <= t[0] <= 'Z'),
    ensures
        without_groups(a + t) == a + without_groups(t),
    decreases a.len(),
{
    if a.len() == 0 {
        assert(a + t =~= t);
        assert(a + without_groups(t) =~= without_groups(t));
    } else {
        let rest = a.skip(1);
        assert((a + t).skip(1) =~= rest + t);
        lemma_guests_stay_inside(rest, t);
        assert(is_opening(a[0]) ==> !names_guests(a.skip(0int + 1)));
        assert(group_len(a + t) == 0);
        assert forall|i: int| 0 <= i < rest.len() && is_opening(#[trigger] rest[i]) implies
            !names_guests(rest.skip(i + 1)) by {
            assert(a[i + 1] == rest[i]);
            assert(a.skip(i + 1 + 1) =~= rest.skip(i + 1));
        }
        lemma_groups_after(rest, t);
        assert(seq![a[0]] + (rest + without_groups(t)) =~= a + without_groups(t));
    }
}

proof fn lemma_groups_char(c: char, t: Seq<char>)
    requires
        !is_opening(c),
    ensures
        without_groups(seq![c] + t) == seq![c] + without_groups(t),
{
    assert((seq![c] + t).skip(1) =~= t);
}

proof fn lemma_to_closing(body: Seq<char>, c: char, t: Seq<char>)
    requires
        is_closing(c),
        forall|i: int| 0 <= i < body.len() ==> !is_closing(#[trigger] body[i]),
    ensures
        to_closing(body + seq![c] + t) == body.len(),
    decreases body.len(),
{
    let s = body + seq![c] + t;
    if body.len() > 0 {
        assert(s.skip(1) =~= body.skip(1) + seq![c] + t);
        assert forall|i: int| 0 <= i < body.skip(1).len() implies !is_closing(
            #[trigger] body.skip(1)[i],
        ) by {
            assert(body.skip(1)[i] == body[i + 1]);
        }
        lemma_to_closing(body.skip(1), c, t);
    }
}

/// A bracket with guests becomes a space.
proof fn lemma_group_is_stripped(g: Seq<char>, t: Seq<char>)
    requires
        is_group(g),
    ensures
        without_groups(g + t) == seq![' '] + without_groups(t),
{
    let s = g + t;
    let body = g.subrange(1, g.len() - 1);
    let c = g.last();
    assert(s.skip(1) =~= body + seq![c] + t);
    assert(g.skip(1) =~= body + seq![c]);
    assert forall|i: int| 0 <= i < body.len() implies !is_closing(#[trigger] body[i]) by {
        assert(body[i] == g[i + 1]);
    }
    lemma_to_closing(body, c, t);
    lemma_guests_stay_inside(body, seq![c]);
    lemma_guests_stay_inside(body, seq![c] + t);
    assert(body + (seq![c] + t) =~= body + seq![c] + t);
    assert(group_len(s) == g.len());
    assert(s.skip(g.len() as int) =~= t);
}

proof fn lemma_first_suffix(s: Seq<char>, from: nat, dash: int)
    requires
        from <= dash <= s.len(),
        forall|d: int| from <= d < dash ==> !#[trigger] starts_suffix(s, d),
        dash < s.len() ==> starts_suffix(s, dash),
    ensures
        first_suffix(s, from) == dash,
    decreases dash - from,
{
    if from < dash {
        assert(!starts_suffix(s, from as int));
        lemma_first_suffix(s, from + 1, dash);
    }
}

/// What no dash sets off stays as it is.
pub proof fn lemma_suffix_free(s: Seq<char>)
    requires
        is_free_of_suffix(s),
    ensures
        without_suffix(s) == s,
{
    lemma_first_suffix(s, 0, s.len() as int);
}

proof fn lemma_release_shifts(p: Seq<char>, x: Seq<char>)
    requires
        starts_suffix(x, 0),
    ensures
        starts_suffix(p + x, p.len() as int),
{
    lemma_release_words();
    let s = p + x;
    let n = p.len() as int;
    let (w, at) = choose|w: int, at: int| #[trigger] release_at(x, 0, w, at);
    let word = release_words()[w];
    assert(to_lower(s) =~= to_lower(p) + to_lower(x));
    assert(to_lower(s).subrange(at + n, at + n + word.len()) =~= to_lower(x).subrange(
        at,
        at + word.len(),
    ));
    assert(s[at + n] == x[at]);
    assert(s[at + n - 1] == x[at - 1]);
    assert(is_edge(s, at + n));
    assert(s[at + n + word.len() - 1] == x[at + word.len() - 1]);
    assert(is_edge(s, at + n + word.len()));
    assert forall|j: int| n < j < at + n implies #[trigger] s[j] != '-' by {
        assert(s[j] == x[j - n]);
    }
    assert forall|j: int| at + n + word.len() <= j < s.len() implies #[trigger] s[j] != '\n' by {
        assert(s[j] == x[j - n]);
    }
    assert(release_at(s, n, w, at + n));
    assert(s[n] == x[0]);
}

/// A dash before another one sets off nothing that is behind that one.
proof fn lemma_release_stays_inside(p: Seq<char>, x: Seq<char>, d: int)
    requires
        x.len() > 0,
        x[0] == '-',
        0 <= d < p.len(),
        starts_suffix(p + x, d),
    ensures
        starts_suffix(p, d),
{
    lemma_release_words();
    let s = p + x;
    let n = p.len() as int;
    let (w, at) = choose|w: int, at: int| #[trigger] release_at(s, d, w, at);
    let word = release_words()[w];
    let end = at + word.len();
    assert(to_lower(s) =~= to_lower(p) + to_lower(x));
    assert(s[n] == '-');
    if at > n {
        assert(s[n] != '-');
    }
    if end > n {
        assert(to_lower(s).subrange(at, end)[n - at] == to_lower(s)[n]);
        assert(to_lower(s)[n] == '-');
        assert(word[n - at] == '-');
    }
    assert(to_lower(p).subrange(at, end) =~= to_lower(s).subrange(at, end));
    assert(s[at] == p[at] && s[at - 1] == p[at - 1]);
    assert(is_edge(p, at));
    assert(s[end - 1] == p[end - 1]);
    if end < n {
        assert(s[end] == p[end]);
    }
    assert(is_edge(p, end));
    assert forall|j: int| d < j < at implies #[trigger] p[j] != '-' by {
        assert(s[j] == p[j]);
    }
    assert forall|j: int| end <= j < p.len() implies #[trigger] p[j] != '\n' by {
        assert(s[j] == p[j]);
    }
    assert(release_at(p, d, w, at));
    assert(p[d] == s[d]);
}

/// What is said of a release behind a text goes, with the dash and the white space before it.
proof fn lemma_suffix_is_stripped(p: Seq<char>, x: Seq<char>)
    requires
        is_free_of_suffix(p),
        starts_suffix(x, 0),
    ensures
        without_suffix(p + x) == trim_end(p).push(' '),
{
    let s = p + x;
    lemma_release_shifts(p, x);
    assert forall|d: int| 0 <= d < p.len() implies !#[trigger] starts_suffix(s, d) by {
        if starts_suffix(s, d) {
            lemma_release_stays_inside(p, x, d);
        }
    }
    lemma_first_suffix(s, 0, p.len() as int);
    assert(s.take(p.len() as int) =~= p);
}

/// Brackets with guests and what is said of a release are stripped independently of each other:
/// put into and behind a text that has neither, together or alone, they leave that text with a
/// space in place of the bracket, and nothing but white space more or less at its end.
pub proof fn law_noise_is_stripped(
    a: Seq<char>,
    group: Seq<char>,
    b: Seq<char>,
    suffix: Seq<char>,
)
    requires
        is_free_of_guests(a),
        is_free_of_guests(b),
        is_free_of_guests(suffix),
        is_free_of_suffix(a + seq![' '] + b),
        is_group(group),
        starts_suffix(suffix, 0),
    ensures
        without_suffix(without_groups(a + seq![' '] + b)) == a + seq![' '] + b,
        without_suffix(without_groups(a + group + b)) == a + seq![' '] + b,
        without_suffix(without_groups(a + seq![' '] + b + suffix)) == trim_end(
            a + seq![' '] + b,
        ).push(' '),
        without_suffix(without_groups(a + group + b + suffix)) == trim_end(
            a + seq![' '] + b,
        ).push(' '),
{
    let space = seq![' '];
    let none = Seq::<char>::empty();
    let text = a + space + b;
    lemma_groups_after(suffix, none);
    assert(suffix + none =~= suffix);
    lemma_groups_after(b, none);
    assert(b + none =~= b);
    assert(without_groups(none) == none);
    lemma_groups_after(b, suffix);
    lemma_groups_char(' ', b);
    lemma_groups_char(' ', b + suffix);
    lemma_groups_after(a, space + b);
    lemma_groups_after(a, space + (b + suffix));
    lemma_group_is_stripped(group, b);
    lemma_group_is_stripped(group, b + suffix);
    lemma_groups_after(a, group + b);
    lemma_groups_after(a, group + (b + suffix));
    assert(a + (space + b) =~= text);
    assert(a + (space + (b + suffix)) =~= text + suffix);
    assert(a + (group + b) =~= a + group + b);
    assert(a + (group + (b + suffix)) =~= a + group + b + suffix);
    lemma_suffix_free(text);
    lemma_suffix_is_stripped(text, suffix);
}

/// A bracket names guests if and only if it begins with "feat", "ft", "with" or "con", whatever the
/// case and whatever follows.
pub proof fn law_brackets_with_guests(s: Seq<char>)
    ensures
        names_guests(s) <==> {
            ||| begins_with(to_lower(s), "feat"@)
            ||| begins_with(to_lower(s), "ft"@)
            ||| begins_with(to_lower(s), "with"@)
            ||| begins_with(to_lower(s), "con"@)
        },
{
    let words = guest_words();
    assert(words[0] == "feat"@ && words[1] == "ft"@ && words[2] == "with"@ && words[3] == "con"@);
}

/// Whether a word stands by itself at a place, whatever the case: with no letter, digit or
/// underscore on either side.
pub open spec fn stands_alone(s: Seq<char>, word: Seq<char>, at: int) -> bool {
    &&& occurs_at(to_lower(s), word, at)
    &&& at == 0 || !is_word_part(s[at - 1])
    &&& at + word.len() == s.len() || !is_word_part(s[at + word.len()])
}

/// Any of the words that are said of a release, by itself and in one line behind a dash, is
/// stripped with it.
pub proof fn law_words_said_of_a_release(s: Seq<char>, word: Seq<char>, at: int)
    requires
        s.len() > 0,
        s[0] == '-',
        0 < at,
        stands_alone(s, word, at),
        word == "remaster"@ || word == "remastered"@ || word == "remix"@ || word == "version"@
            || word == "edit"@ || word == "mix"@ || word == "mono"@ || word == "stereo"@ || word
            == "bonus"@ || word == "radio"@ || word == "single"@ || word == "album"@ || word
            == "anniversary"@,
        forall|j: int| 0 < j < s.len() ==> #[trigger] s[j] != '-' && s[j] != '\n',
    ensures
        starts_suffix(s, 0),
{
    reveal_strlit("remaster");
    reveal_strlit("remastered");
    reveal_strlit("remix");
    reveal_strlit("version");
    reveal_strlit("edit");
    reveal_strlit("mix");
    reveal_strlit("mono");
    reveal_strlit("stereo");
    reveal_strlit("bonus");
    reveal_strlit("radio");
    reveal_strlit("single");
    reveal_strlit("album");
    reveal_strlit("anniversary");
    let all = release_words();
    assert(all[0] == "remaster"@ && all[1] == "remastered"@ && all[2] == "remix"@ && all[3]
        == "version"@ && all[4] == "edit"@ && all[5] == "mix"@ && all[6] == "mono"@ && all[7]
        == "stereo"@);
    assert(all[9] == "bonus"@ && all[10] == "radio"@ && all[11] == "single"@ && all[12]
        == "album"@ && all[13] == "anniversary"@);
    let w = choose|w: int| 0 <= w < all.len() && #[trigger] all[w] == word;
    let end = at + word.len();
    assert('a' <= word[0] <= 'z' && 'a' <= word.last() <= 'z');
    assert(to_lower(s).subrange(at, end)[0] == to_lower(s)[at]);
    assert(to_lower(s).subrange(at, end).last() == to_lower(s)[end - 1]);
    assert(is_word_part(s[at]) && is_word_part(s[end - 1]));
    assert(release_at(s, 0, w, at));
}

/// Whether one of the words that are said of a release is at a place, whatever the case.
pub open spec fn says_release(s: Seq<char>, at: int) -> bool {
    ||| occurs_at(to_lower(s), "remaster"@, at)
    ||| occurs_at(to_lower(s), "remastered"@, at)
    ||| occurs_at(to_lower(s), "remix"@, at)
    ||| occurs_at(to_lower(s), "version"@, at)
    ||| occurs_at(to_lower(s), "edit"@, at)
    ||| occurs_at(to_lower(s), "mix"@, at)
    ||| occurs_at(to_lower(s), "mono"@, at)
    ||| occurs_at(to_lower(s), "stereo"@, at)
    ||| occurs_at(to_lower(s), "\ndeluxe"@, at)
    ||| occurs_at(to_lower(s), "bonus"@, at)
    ||| occurs_at(to_lower(s), "radio"@, at)
    ||| occurs_at(to_lower(s), "single"@, at)
    ||| occurs_at(to_lower(s), "album"@, at)
    ||| occurs_at(to_lower(s), "anniversary"@, at)
}

/// Nothing is stripped behind a dash unless one of these words is there.
pub proof fn law_only_words_said_of_a_release(s: Seq<char>, dash: int)
    requires
        starts_suffix(s, dash),
    ensures
        exists|at: int| dash < at && #[trigger] says_release(s, at),
{
    let (w, at) = choose|w: int, at: int| #[trigger] release_at(s, dash, w, at);
    assert(w == 0 || w == 1 || w == 2 || w == 3 || w == 4 || w == 5 || w == 6 || w == 7 || w == 8
        || w == 9 || w == 10 || w == 11 || w == 12 || w == 13);
    assert(says_release(s, at));
}

} // verus!
