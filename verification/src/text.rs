//! Text seen as a sequence of characters.

use vstd::prelude::*;

verus! {

/// `String::push`: the character goes behind the last one.
pub assume_specification[ String::push ](text: &mut String, c: char)
    ensures
        final(text)@ == old(text)@.push(c),
;

/// `Chars::count` on `str::chars`: the number of characters. No allocation is larger than
/// `isize::MAX` bytes and every character takes at least one, which bounds the count.
#[verifier::external_body]
pub(crate) fn char_count(text: &str) -> (n: usize)
    ensures
        n == text@.len(),
        n <= isize::MAX,
{
    text.chars().count()
}

/// The characters of a text, one by one.
pub fn to_chars(text: &str) -> (r: Vec<char>)
    ensures
        r@ == text@,
{
    let mut r: Vec<char> = Vec::new();
    for c in it: text.chars()
        invariant
            r@ == it.seq().take(it.index()),
            it.seq() == text@,
    {
        r.push(c);
    }
    r
}

/// Whether two texts are equal.
pub fn same_text(a: &str, b: &str) -> (r: bool)
    ensures
        r == (a@ == b@),
{
    let mut x = a.chars();
    let mut y = b.chars();
    let ghost mut n: int = 0;
    assert(a@.skip(0) =~= a@ && b@.skip(0) =~= b@);
    loop
        invariant
            0 <= n <= a@.len(),
            n <= b@.len(),
            vstd::std_specs::iter::IteratorSpec::remaining(&x) == a@.skip(n),
            vstd::std_specs::iter::IteratorSpec::remaining(&y) == b@.skip(n),
            a@.take(n) == b@.take(n),
        decreases a@.len() - n,
    {
        match (x.next(), y.next()) {
            (None, None) => {
                assert(a@.take(n) =~= a@ && b@.take(n) =~= b@);
                return true;
            },
            (Some(c), Some(d)) => {
                if c != d {
                    assert(a@[n] == c && b@[n] == d);
                    return false;
                }
                proof {
                    lemma_take_next(a@, n);
                    lemma_take_next(b@, n);
                    assert(a@.skip(n).drop_first() =~= a@.skip(n + 1));
                    assert(b@.skip(n).drop_first() =~= b@.skip(n + 1));
                    n = n + 1;
                }
            },
            _ => {
                return false;
            },
        }
    }
}

/// A text that may be missing.
pub open spec fn text_view(text: Option<String>) -> Option<Seq<char>> {
    match text {
        Some(t) => Some(t@),
        None => None,
    }
}

/// The views of several texts.
pub open spec fn views(texts: Seq<String>) -> Seq<Seq<char>> {
    texts.map_values(|t: String| t@)
}

/// White space as Unicode's `White_Space` property has it.
pub open spec fn is_whitespace(c: char) -> bool {
    ||| '\u{9}' <= c <= '\u{d}'
    ||| c == '\u{20}'
    ||| c == '\u{85}'
    ||| c == '\u{a0}'
    ||| c == '\u{1680}'
    ||| '\u{2000}' <= c <= '\u{200a}'
    ||| c == '\u{2028}'
    ||| c == '\u{2029}'
    ||| c == '\u{202f}'
    ||| c == '\u{205f}'
    ||| c == '\u{3000}'
}

/// True of the characters of Unicode's `White_Space` property.
pub fn whitespace(c: char) -> (r: bool)
    ensures
        r == is_whitespace(c),
{
    ('\u{9}' <= c && c <= '\u{d}') || c == '\u{20}' || c == '\u{85}' || c == '\u{a0}'
        || c == '\u{1680}' || ('\u{2000}' <= c && c <= '\u{200a}') || c == '\u{2028}'
        || c == '\u{2029}' || c == '\u{202f}' || c == '\u{205f}' || c == '\u{3000}'
}

/// An ASCII digit.
pub open spec fn is_digit(c: char) -> bool {
    '0' <= c <= '9'
}

/// An ASCII letter or digit.
pub open spec fn is_alphanumeric(c: char) -> bool {
    ||| is_digit(c)
    ||| 'a' <= c <= 'z'
    ||| 'A' <= c <= 'Z'
}

/// True of ASCII letters and digits.
pub fn alphanumeric(c: char) -> (r: bool)
    ensures
        r == is_alphanumeric(c),
{
    ('0' <= c && c <= '9') || ('a' <= c && c <= 'z') || ('A' <= c && c <= 'Z')
}

/// A character of ASCII.
pub open spec fn is_ascii_char(c: char) -> bool {
    c <= '\u{7f}'
}

/// The lower case of an ASCII letter; every other character as it is.
pub open spec fn lower(c: char) -> char {
    if 'A' <= c <= 'Z' {
        (c as u8 + 32) as char
    } else {
        c
    }
}

/// The lower case of an ASCII letter; every other character as it is.
pub fn lower_char(c: char) -> (r: char)
    ensures
        r == lower(c),
{
    if 'A' <= c && c <= 'Z' {
        (c as u8 + 32) as char
    } else {
        c
    }
}

/// The upper case of an ASCII letter; every other character as it is.
pub open spec fn upper(c: char) -> char {
    if 'a' <= c <= 'z' {
        (c as u8 - 32) as char
    } else {
        c
    }
}

/// The upper case of an ASCII letter; every other character as it is.
pub fn upper_char(c: char) -> (r: char)
    ensures
        r == upper(c),
{
    if 'a' <= c && c <= 'z' {
        (c as u8 - 32) as char
    } else {
        c
    }
}

/// Every ASCII letter in lower case.
pub open spec fn to_lower(s: Seq<char>) -> Seq<char> {
    s.map_values(|c: char| lower(c))
}

/// The text with every ASCII letter in lower case.
pub fn lowercase(text: &str) -> (r: String)
    ensures
        r@ == to_lower(text@),
{
    let mut r: String = String::new();
    for c in it: text.chars()
        invariant
            r@ == to_lower(it.seq().take(it.index())),
            it.seq() == text@,
    {
        r.push(lower_char(c));
    }
    r
}

/// A sequence grown by one element, filtered.
pub proof fn lemma_filter_push<A>(s: Seq<A>, x: A, p: spec_fn(A) -> bool)
    ensures
        s.push(x).filter(p) == if p(x) {
            s.filter(p).push(x)
        } else {
            s.filter(p)
        },
{
    reveal(Seq::filter);
    assert(s.push(x).drop_last() =~= s);
}

/// One more element of a sequence.
pub proof fn lemma_take_next<A>(s: Seq<A>, i: int)
    requires
        0 <= i < s.len(),
    ensures
        s.take(i + 1) == s.take(i).push(s[i]),
{
    assert(s.take(i + 1) =~= s.take(i).push(s[i]));
}

/// What parts of a text are set apart by.
#[derive(Clone, Copy)]
pub enum Separator {
    /// One given character.
    Char(char),
    /// Any white space.
    Whitespace,
    /// Anything but an ASCII letter or digit.
    NonAlphanumeric,
}

impl Separator {
    /// The characters that separate.
    pub open spec fn covers(self, c: char) -> bool {
        match self {
            Separator::Char(d) => c == d,
            Separator::Whitespace => is_whitespace(c),
            Separator::NonAlphanumeric => !is_alphanumeric(c),
        }
    }

    /// Whether a character separates.
    pub fn separates(self, c: char) -> (r: bool)
        ensures
            r == self.covers(c),
    {
        match self {
            Separator::Char(d) => c == d,
            Separator::Whitespace => whitespace(c),
            Separator::NonAlphanumeric => !alphanumeric(c),
        }
    }
}

/// The parts of a text between separators; one part where there is no separator.
pub open spec fn split(s: Seq<char>, sep: Separator) -> Seq<Seq<char>>
    decreases s.len(),
{
    if s.len() == 0 {
        seq![Seq::empty()]
    } else {
        let before = split(s.drop_last(), sep);
        if sep.covers(s.last()) {
            before.push(Seq::empty())
        } else {
            before.drop_last().push(before.last().push(s.last()))
        }
    }
}

/// A text always has a part.
pub proof fn lemma_split_len(s: Seq<char>, sep: Separator)
    ensures
        split(s, sep).len() >= 1,
    decreases s.len(),
{
    if s.len() > 0 {
        lemma_split_len(s.drop_last(), sep);
    }
}

/// Cuts a text at every separator.
pub fn split_text(text: &str, sep: Separator) -> (r: Vec<String>)
    ensures
        views(r@) == split(text@, sep),
{
    let mut r: Vec<String> = Vec::new();
    let mut part: String = String::new();
    assert(views(r@).push(part@) =~= seq![Seq::<char>::empty()]);
    for c in it: text.chars()
        invariant
            views(r@).push(part@) == split(it.seq().take(it.index()), sep),
            it.seq() == text@,
    {
        proof {
            assert(text@.take(it.index() + 1).drop_last() =~= text@.take(it.index()));
        }
        let ghost before = views(r@).push(part@);
        if sep.separates(c) {
            r.push(part);
            part = String::new();
            assert(views(r@).push(part@) =~= before.push(Seq::empty()));
        } else {
            part.push(c);
            assert(views(r@).push(part@) =~= before.drop_last().push(before.last().push(c)));
        }
    }
    assert(text@.take(text@.len() as int) =~= text@);
    let ghost before = views(r@);
    let ghost last = part@;
    r.push(part);
    assert(views(r@) =~= before.push(last));
    r
}

/// Not the empty text.
pub open spec fn nonempty() -> spec_fn(Seq<char>) -> bool {
    |t: Seq<char>| t.len() > 0
}

/// The parts of a text between separators that are not empty.
pub open spec fn tokens(s: Seq<char>, sep: Separator) -> Seq<Seq<char>> {
    split(s, sep).filter(nonempty())
}

/// The texts that are not empty, in their order.
pub fn without_empty(texts: &Vec<String>) -> (r: Vec<String>)
    ensures
        views(r@) == views(texts@).filter(nonempty()),
{
    let mut r: Vec<String> = Vec::new();
    let ghost all = views(texts@);
    proof {
        reveal(Seq::filter);
        assert(views(r@) =~= all.take(0).filter(nonempty()));
    }
    for i in 0..texts.len()
        invariant
            all == views(texts@),
            views(r@) == all.take(i as int).filter(nonempty()),
    {
        proof {
            lemma_take_next(all, i as int);
            lemma_filter_push(all.take(i as int), all[i as int], nonempty());
        }
        if !texts[i].as_str().is_empty() {
            let ghost before = views(r@);
            r.push(texts[i].clone());
            assert(views(r@) =~= before.push(all[i as int]));
        }
    }
    assert(all.take(texts@.len() as int) =~= all);
    r
}

/// Cuts a text at every separator and drops what is empty.
pub fn tokenize(text: &str, sep: Separator) -> (r: Vec<String>)
    ensures
        views(r@) == tokens(text@, sep),
{
    let parts = split_text(text, sep);
    without_empty(&parts)
}

/// The texts one behind the other with a separator between each two.
pub open spec fn join(parts: Seq<Seq<char>>, sep: Seq<char>) -> Seq<char>
    decreases parts.len(),
{
    if parts.len() == 0 {
        Seq::empty()
    } else if parts.len() == 1 {
        parts[0]
    } else {
        join(parts.drop_last(), sep) + sep + parts.last()
    }
}

/// Puts the texts one behind the other with a separator between each two.
pub fn join_texts(parts: &Vec<String>, sep: &str) -> (r: String)
    ensures
        r@ == join(views(parts@), sep@),
{
    let mut r: String = String::new();
    let ghost all = views(parts@);
    for i in 0..parts.len()
        invariant
            all == views(parts@),
            r@ == join(all.take(i as int), sep@),
    {
        assert(all.take(i + 1).drop_last() =~= all.take(i as int));
        if i > 0 {
            r.append(sep);
        }
        r.append(parts[i].as_str());
        assert(r@ =~= join(all.take(i + 1), sep@));
    }
    assert(all.take(parts@.len() as int) =~= all);
    r
}

/// The text without the white space before it.
pub open spec fn trim_start(s: Seq<char>) -> Seq<char>
    decreases s.len(),
{
    if s.len() > 0 && is_whitespace(s[0]) {
        trim_start(s.skip(1))
    } else {
        s
    }
}

/// The text without the white space behind it.
pub open spec fn trim_end(s: Seq<char>) -> Seq<char>
    decreases s.len(),
{
    if s.len() > 0 && is_whitespace(s.last()) {
        trim_end(s.drop_last())
    } else {
        s
    }
}

/// The text without the white space around it.
pub open spec fn trim(s: Seq<char>) -> Seq<char> {
    trim_end(trim_start(s))
}

/// Cuts off the white space around a text.
pub fn trim_text(text: &str) -> (r: String)
    ensures
        r@ == trim(text@),
{
    let chars = to_chars(text);
    let mut lo: usize = 0;
    assert(chars@.skip(0) =~= chars@);
    while lo < chars.len() && whitespace(chars[lo])
        invariant
            lo <= chars@.len(),
            trim_start(chars@) == trim_start(chars@.skip(lo as int)),
        decreases chars@.len() - lo,
    {
        assert(chars@.skip(lo as int).skip(1) =~= chars@.skip(lo + 1));
        lo = lo + 1;
    }
    let mut hi: usize = chars.len();
    assert(chars@.subrange(lo as int, hi as int) =~= chars@.skip(lo as int));
    while hi > lo && whitespace(chars[hi - 1])
        invariant
            lo <= hi <= chars@.len(),
            trim(chars@) == trim_end(chars@.subrange(lo as int, hi as int)),
        decreases hi,
    {
        assert(chars@.subrange(lo as int, hi as int).drop_last() =~= chars@.subrange(
            lo as int,
            hi - 1,
        ));
        hi = hi - 1;
    }
    let mut r: String = String::new();
    for i in lo..hi
        invariant
            hi <= chars@.len(),
            r@ == chars@.subrange(lo as int, i as int),
    {
        r.push(chars[i]);
    }
    r
}

/// Every ASCII letter in upper case.
pub open spec fn to_upper(s: Seq<char>) -> Seq<char> {
    s.map_values(|c: char| upper(c))
}

/// The text with every ASCII letter in upper case.
pub fn uppercase(text: &str) -> (r: String)
    ensures
        r@ == to_upper(text@),
{
    let mut r: String = String::new();
    for c in it: text.chars()
        invariant
            r@ == to_upper(it.seq().take(it.index())),
            it.seq() == text@,
    {
        r.push(upper_char(c));
    }
    r
}

/// The ASCII letters and digits of a text.
pub open spec fn alphanumerics(s: Seq<char>) -> Seq<char> {
    s.filter(|c: char| is_alphanumeric(c))
}

/// Keeps the ASCII letters and digits of a text.
pub fn keep_alphanumeric(text: &str) -> (r: String)
    ensures
        r@ == alphanumerics(text@),
{
    let mut r: String = String::new();
    let ghost p = |c: char| is_alphanumeric(c);
    proof {
        reveal(Seq::filter);
        assert(r@ =~= text@.take(0).filter(p));
    }
    for c in it: text.chars()
        invariant
            p == (|c: char| is_alphanumeric(c)),
            r@ == it.seq().take(it.index()).filter(p),
            it.seq() == text@,
    {
        proof {
            lemma_take_next(text@, it.index());
            lemma_filter_push(text@.take(it.index()), c, p);
        }
        if alphanumeric(c) {
            r.push(c);
        }
    }
    assert(text@.take(text@.len() as int) =~= text@);
    r
}

/// A filter that everything passes changes nothing.
pub proof fn lemma_filter_all<A>(s: Seq<A>, p: spec_fn(A) -> bool)
    requires
        forall|i: int| 0 <= i < s.len() ==> p(#[trigger] s[i]),
    ensures
        s.filter(p) == s,
    decreases s.len(),
{
    reveal(Seq::filter);
    if s.len() > 0 {
        lemma_filter_all(s.drop_last(), p);
        assert(s.drop_last().push(s.last()) =~= s);
    }
}

/// What a filter keeps was there.
pub proof fn lemma_filter_subset<A>(s: Seq<A>, p: spec_fn(A) -> bool, k: int)
    requires
        0 <= k < s.filter(p).len(),
    ensures
        s.contains(s.filter(p)[k]),
    decreases s.len(),
{
    reveal(Seq::filter);
    if s.len() > 0 {
        let front = s.drop_last();
        if k < front.filter(p).len() {
            lemma_filter_subset(front, p, k);
            let j = choose|j: int| 0 <= j < front.len() && front[j] == front.filter(p)[k];
            assert(s[j] == s.filter(p)[k]);
        } else {
            assert(s[s.len() - 1] == s.filter(p)[k]);
        }
    }
}

/// Whether a character occurs in a text.
pub fn contains_char(text: &str, wanted: char) -> (r: bool)
    ensures
        r == text@.contains(wanted),
{
    let chars = to_chars(text);
    for i in 0..chars.len()
        invariant
            chars@ == text@,
            forall|j: int| 0 <= j < i ==> #[trigger] chars@[j] != wanted,
    {
        if chars[i] == wanted {
            assert(text@[i as int] == wanted);
            return true;
        }
    }
    false
}

/// Whether a text occurs in another one at a place.
pub open spec fn occurs_at(s: Seq<char>, part: Seq<char>, i: int) -> bool {
    0 <= i && i + part.len() <= s.len() && s.subrange(i, i + part.len()) == part
}

/// Whether a text occurs in another one.
pub open spec fn occurs_in(s: Seq<char>, part: Seq<char>) -> bool {
    exists|i: int| #[trigger] occurs_at(s, part, i)
}

fn holds_at(chars: &Vec<char>, part: &Vec<char>, i: usize) -> (r: bool)
    requires
        i <= chars@.len(),
    ensures
        r == occurs_at(chars@, part@, i as int),
{
    let total = chars.len();
    if part.len() > total - i {
        return false;
    }
    for k in 0..part.len()
        invariant
            total == chars@.len(),
            i + part@.len() <= total,
            forall|j: int| 0 <= j < k ==> chars@[i + j] == #[trigger] part@[j],
    {
        if chars[i + k] != part[k] {
            assert(chars@.subrange(i as int, i + part@.len())[k as int] == chars@[i + k]);
            return false;
        }
    }
    assert(chars@.subrange(i as int, i + part@.len()) =~= part@);
    true
}

/// Whether a text occurs in another one.
pub fn contains_part(text: &str, part: &str) -> (r: bool)
    ensures
        r == occurs_in(text@, part@),
{
    let chars = to_chars(text);
    let wanted = to_chars(part);
    let mut i: usize = 0;
    while i < chars.len()
        invariant
            chars@ == text@,
            wanted@ == part@,
            i <= chars@.len(),
            forall|j: int| 0 <= j < i ==> !#[trigger] occurs_at(text@, part@, j),
        decreases chars@.len() - i,
    {
        if holds_at(&chars, &wanted, i) {
            return true;
        }
        i = i + 1;
    }
    holds_at(&chars, &wanted, i)
}

/// Whether a text begins with another one.
pub open spec fn begins_with(s: Seq<char>, prefix: Seq<char>) -> bool {
    occurs_at(s, prefix, 0)
}

/// Whether a text ends in another one.
pub open spec fn ends_in(s: Seq<char>, suffix: Seq<char>) -> bool {
    occurs_at(s, suffix, s.len() - suffix.len())
}

/// Whether a text begins with another one.
pub fn starts_with(text: &str, prefix: &str) -> (r: bool)
    ensures
        r == begins_with(text@, prefix@),
{
    holds_at(&to_chars(text), &to_chars(prefix), 0)
}

/// Whether a text ends in another one.
pub fn ends_with(text: &str, suffix: &str) -> (r: bool)
    ensures
        r == ends_in(text@, suffix@),
{
    let chars = to_chars(text);
    let end = to_chars(suffix);
    if end.len() > chars.len() {
        return false;
    }
    holds_at(&chars, &end, chars.len() - end.len())
}

/// What is behind a prefix; nothing where the text does not begin with it.
pub open spec fn behind(s: Seq<char>, prefix: Seq<char>) -> Option<Seq<char>> {
    if begins_with(s, prefix) {
        Some(s.skip(prefix.len() as int))
    } else {
        None
    }
}

/// Cuts a prefix off a text that begins with it.
pub fn strip_prefix<'a>(text: &'a str, prefix: &str) -> (r: Option<&'a str>)
    ensures
        match r {
            Some(rest) => behind(text@, prefix@) == Some(rest@),
            None => behind(text@, prefix@) is None,
        },
{
    if !starts_with(text, prefix) {
        return None;
    }
    let rest = text.substring_char(char_count(prefix), char_count(text));
    assert(rest@ =~= text@.skip(prefix@.len() as int));
    Some(rest)
}

/// A text with one character put for another.
pub open spec fn replaced(s: Seq<char>, from: char, to: char) -> Seq<char> {
    s.map_values(
        |c: char|
            if c == from {
                to
            } else {
                c
            },
    )
}

/// Puts one character for another.
pub fn replace_char(text: &str, from: char, to: char) -> (r: String)
    ensures
        r@ == replaced(text@, from, to),
{
    let mut r: String = String::new();
    for c in it: text.chars()
        invariant
            r@ == replaced(it.seq().take(it.index()), from, to),
            it.seq() == text@,
    {
        r.push(
            if c == from {
                to
            } else {
                c
            },
        );
    }
    r
}

/// A digit as a character.
pub open spec fn digit(d: nat) -> char {
    (48 + d) as char
}

/// A number in decimal digits.
pub open spec fn decimal(n: nat) -> Seq<char>
    decreases n,
{
    if n < 10 {
        seq![digit(n)]
    } else {
        decimal(n / 10).push(digit(n % 10))
    }
}

/// Writes a number in decimal digits.
pub fn decimal_text(n: u128) -> (r: String)
    ensures
        r@ == decimal(n as nat),
    decreases n,
{
    let last = (48 + (n % 10) as u8) as char;
    let mut r: String = if n < 10 {
        String::new()
    } else {
        decimal_text(n / 10)
    };
    r.push(last);
    assert(n < 10 ==> r@ =~= decimal(n as nat));
    r
}

/// Trimmed text has no white space at its ends, and stays as it is.
pub proof fn lemma_trim(s: Seq<char>)
    ensures
        trim(s).len() > 0 ==> !is_whitespace(trim(s)[0]) && !is_whitespace(trim(s).last()),
        trim(trim(s)) == trim(s),
{
    lemma_trim_start(s);
    lemma_trim_end(trim_start(s));
}

proof fn lemma_trim_start(s: Seq<char>)
    ensures
        trim_start(s).len() > 0 ==> !is_whitespace(trim_start(s)[0]),
    decreases s.len(),
{
    if s.len() > 0 && is_whitespace(s[0]) {
        lemma_trim_start(s.skip(1));
    }
}

proof fn lemma_trim_end(s: Seq<char>)
    ensures
        trim_end(s).len() > 0 ==> !is_whitespace(trim_end(s).last()) && trim_end(s)[0] == s[0],
    decreases s.len(),
{
    if s.len() > 0 && is_whitespace(s.last()) {
        lemma_trim_end(s.drop_last());
    }
}

/// A text without a separator is one part.
pub proof fn lemma_split_none(a: Seq<char>, sep: Separator)
    requires
        forall|i: int| 0 <= i < a.len() ==> !sep.covers(#[trigger] a[i]),
    ensures
        split(a, sep) == seq![a],
    decreases a.len(),
{
    if a.len() == 0 {
        assert(a =~= Seq::empty());
    } else {
        lemma_split_none(a.drop_last(), sep);
        assert(a.drop_last().push(a.last()) =~= a);
        assert(split(a, sep) =~= seq![a]);
    }
}

/// What follows a separator and holds none is a part of its own.
pub proof fn lemma_split_last(a: Seq<char>, c: char, b: Seq<char>, sep: Separator)
    requires
        sep.covers(c),
        forall|i: int| 0 <= i < b.len() ==> !sep.covers(#[trigger] b[i]),
    ensures
        split(a + seq![c] + b, sep) == split(a, sep).push(b),
    decreases b.len(),
{
    let s = a + seq![c] + b;
    if b.len() == 0 {
        assert(s.drop_last() =~= a);
        assert(b =~= Seq::empty());
    } else {
        let front = b.drop_last();
        lemma_split_last(a, c, front, sep);
        assert(s.drop_last() =~= a + seq![c] + front);
        assert(split(a, sep).push(front).drop_last() =~= split(a, sep));
        assert(front.push(b.last()) =~= b);
    }
}

/// Texts that are joined by a character that none of them holds come apart again.
pub proof fn lemma_split_join(parts: Seq<Seq<char>>, c: char)
    requires
        parts.len() > 0,
        forall|i: int| 0 <= i < parts.len() ==> !(#[trigger] parts[i]).contains(c),
    ensures
        split(join(parts, seq![c]), Separator::Char(c)) == parts,
    decreases parts.len(),
{
    let sep = Separator::Char(c);
    let last = parts.last();
    assert forall|i: int| 0 <= i < last.len() implies !sep.covers(#[trigger] last[i]) by {
        assert(!parts[parts.len() - 1].contains(c));
    }
    if parts.len() == 1 {
        lemma_split_none(last, sep);
        assert(seq![last] =~= parts);
    } else {
        let front = parts.drop_last();
        assert forall|i: int| 0 <= i < front.len() implies !(#[trigger] front[i]).contains(c) by {
            assert(front[i] == parts[i]);
        }
        lemma_split_join(front, c);
        lemma_split_last(join(front, seq![c]), c, last, sep);
        assert(front.push(last) =~= parts);
    }
}

/// What a list holds once a text is put behind it.
pub proof fn lemma_push_contains<A>(s: Seq<A>, x: A, t: A)
    ensures
        s.push(x).contains(t) <==> s.contains(t) || t == x,
{
    if s.contains(t) {
        let i = choose|i: int| 0 <= i < s.len() && s[i] == t;
        assert(s.push(x)[i] == t);
    }
    if t == x {
        assert(s.push(x)[s.len() as int] == t);
    }
    if s.push(x).contains(t) && t != x {
        let i = choose|i: int| 0 <= i < s.push(x).len() && s.push(x)[i] == t;
        assert(s[i] == t);
    }
}

/// No part of a text holds the character that it was cut at.
pub proof fn lemma_split_parts(s: Seq<char>, c: char)
    ensures
        forall|i: int|
            0 <= i < split(s, Separator::Char(c)).len() ==> !(
            #[trigger] split(s, Separator::Char(c))[i]).contains(c),
    decreases s.len(),
{
    let sep = Separator::Char(c);
    if s.len() > 0 {
        lemma_split_parts(s.drop_last(), c);
        lemma_split_len(s.drop_last(), sep);
        let before = split(s.drop_last(), sep);
        assert forall|i: int| 0 <= i < split(s, sep).len() implies !(
        #[trigger] split(s, sep)[i]).contains(c) by {
            if i < before.len() {
                assert(!before[i].contains(c));
                if !sep.covers(s.last()) {
                    lemma_push_contains(before[i], s.last(), c);
                }
            }
        }
    }
}

/// Trimmed text holds nothing that the text does not.
pub proof fn lemma_trim_part(s: Seq<char>)
    ensures
        forall|i: int| 0 <= i < trim(s).len() ==> s.contains(#[trigger] trim(s)[i]),
{
    lemma_trim_start_part(s);
    lemma_trim_end_part(trim_start(s));
    assert forall|i: int| 0 <= i < trim(s).len() implies s.contains(#[trigger] trim(s)[i]) by {
        assert(trim_start(s).contains(trim(s)[i]));
        let j = choose|j: int| 0 <= j < trim_start(s).len() && trim_start(s)[j] == trim(s)[i];
        assert(s.contains(trim_start(s)[j]));
    }
}

proof fn lemma_trim_start_part(s: Seq<char>)
    ensures
        forall|i: int| 0 <= i < trim_start(s).len() ==> s.contains(#[trigger] trim_start(s)[i]),
    decreases s.len(),
{
    if s.len() > 0 && is_whitespace(s[0]) {
        let rest = s.skip(1);
        lemma_trim_start_part(rest);
        assert forall|i: int| 0 <= i < trim_start(s).len() implies s.contains(
            #[trigger] trim_start(s)[i],
        ) by {
            assert(rest.contains(trim_start(rest)[i]));
            let j = choose|j: int| 0 <= j < rest.len() && rest[j] == trim_start(rest)[i];
            assert(s[j + 1] == trim_start(s)[i]);
        }
    }
}

proof fn lemma_trim_end_part(s: Seq<char>)
    ensures
        forall|i: int| 0 <= i < trim_end(s).len() ==> s.contains(#[trigger] trim_end(s)[i]),
    decreases s.len(),
{
    if s.len() > 0 && is_whitespace(s.last()) {
        let front = s.drop_last();
        lemma_trim_end_part(front);
        assert forall|i: int| 0 <= i < trim_end(s).len() implies s.contains(
            #[trigger] trim_end(s)[i],
        ) by {
            assert(front.contains(trim_end(front)[i]));
            let j = choose|j: int| 0 <= j < front.len() && front[j] == trim_end(front)[i];
            assert(s[j] == trim_end(s)[i]);
        }
    }
}

/// A text is cut at each of its separators: on both sides of one, as if that side were alone.
pub proof fn law_split_at_separator(a: Seq<char>, c: char, b: Seq<char>, sep: Separator)
    requires
        sep.covers(c),
    ensures
        split(a + seq![c] + b, sep) == split(a, sep) + split(b, sep),
    decreases b.len(),
{
    let s = a + seq![c] + b;
    if b.len() == 0 {
        assert(s.drop_last() =~= a);
        assert(split(s, sep) =~= split(a, sep) + split(b, sep));
    } else {
        let front = b.drop_last();
        law_split_at_separator(a, c, front, sep);
        lemma_split_len(front, sep);
        assert(s.drop_last() =~= a + seq![c] + front);
        assert(split(s, sep) =~= split(a, sep) + split(b, sep));
    }
}

/// Texts that are joined in two parts have a separator between the parts.
pub proof fn law_join_in_parts(x: Seq<Seq<char>>, y: Seq<Seq<char>>, sep: Seq<char>)
    ensures
        join(x + y, sep) == if x.len() == 0 {
            join(y, sep)
        } else if y.len() == 0 {
            join(x, sep)
        } else {
            join(x, sep) + sep + join(y, sep)
        },
    decreases y.len(),
{
    if y.len() == 0 {
        assert(x + y =~= x);
    } else if x.len() == 0 {
        assert(x + y =~= y);
    } else {
        let front = y.drop_last();
        law_join_in_parts(x, front, sep);
        assert((x + y).drop_last() =~= x + front);
        if y.len() == 1 {
            assert(y[0] == y.last());
        } else {
            assert(join(x + y, sep) =~= join(x, sep) + sep + join(y, sep));
        }
    }
}

/// Trimming takes white space off both ends and nothing else.
pub proof fn law_trim_takes_white_space(s: Seq<char>)
    ensures
        exists|i: int, j: int|
            {
                &&& 0 <= i <= j <= s.len()
                &&& trim(s) == #[trigger] s.subrange(i, j)
                &&& forall|k: int| 0 <= k < i ==> is_whitespace(#[trigger] s[k])
                &&& forall|k: int| j <= k < s.len() ==> is_whitespace(#[trigger] s[k])
            },
        trim(s).len() > 0 ==> !is_whitespace(trim(s)[0]) && !is_whitespace(trim(s).last()),
{
    lemma_trim(s);
    let i = lemma_trim_start_at(s);
    let j = i + lemma_trim_end_at(s.skip(i));
    assert(trim(s) =~= s.subrange(i, j)) by {
        assert(s.skip(i).take(j - i) =~= s.subrange(i, j));
    }
    assert forall|k: int| j <= k < s.len() implies is_whitespace(#[trigger] s[k]) by {
        assert(s.skip(i)[k - i] == s[k]);
    }
}

proof fn lemma_trim_start_at(s: Seq<char>) -> (i: int)
    ensures
        0 <= i <= s.len(),
        trim_start(s) == s.skip(i),
        forall|k: int| 0 <= k < i ==> is_whitespace(#[trigger] s[k]),
    decreases s.len(),
{
    if s.len() > 0 && is_whitespace(s[0]) {
        let i = lemma_trim_start_at(s.skip(1));
        assert(s.skip(1).skip(i) =~= s.skip(i + 1));
        assert forall|k: int| 0 <= k < i + 1 implies is_whitespace(#[trigger] s[k]) by {
            if k > 0 {
                assert(s.skip(1)[k - 1] == s[k]);
            }
        }
        i + 1
    } else {
        assert(s.skip(0) =~= s);
        0
    }
}

proof fn lemma_trim_end_at(s: Seq<char>) -> (j: int)
    ensures
        0 <= j <= s.len(),
        trim_end(s) == s.take(j),
        forall|k: int| j <= k < s.len() ==> is_whitespace(#[trigger] s[k]),
    decreases s.len(),
{
    if s.len() > 0 && is_whitespace(s.last()) {
        let j = lemma_trim_end_at(s.drop_last());
        assert(s.drop_last().take(j) =~= s.take(j));
        assert forall|k: int| j <= k < s.len() implies is_whitespace(#[trigger] s[k]) by {
            if k < s.len() - 1 {
                assert(s.drop_last()[k] == s[k]);
            }
        }
        j
    } else {
        assert(s.take(s.len() as int) =~= s);
        s.len() as int
    }
}

/// White space before and behind a text that is trimmed is all that trimming takes off.
pub proof fn law_trim_undoes_padding(before: Seq<char>, s: Seq<char>, behind: Seq<char>)
    requires
        forall|k: int| 0 <= k < before.len() ==> is_whitespace(#[trigger] before[k]),
        forall|k: int| 0 <= k < behind.len() ==> is_whitespace(#[trigger] behind[k]),
        s.len() > 0 ==> !is_whitespace(s[0]) && !is_whitespace(s.last()),
    ensures
        trim(before + s + behind) == s,
    decreases before.len() + behind.len(),
{
    let all = before + s + behind;
    if before.len() > 0 {
        assert(all.skip(1) =~= before.skip(1) + s + behind);
        assert(before[0] == all[0]);
        assert forall|k: int| 0 <= k < before.skip(1).len() implies is_whitespace(
            #[trigger] before.skip(1)[k],
        ) by {
            assert(before.skip(1)[k] == before[k + 1]);
        }
        law_trim_undoes_padding(before.skip(1), s, behind);
    } else if s.len() == 0 {
        lemma_trim_blank(all);
    } else {
        assert(all =~= s + behind);
        assert(trim_start(all) == all);
        lemma_trim_end_padding(s, behind);
    }
}

proof fn lemma_trim_blank(s: Seq<char>)
    requires
        forall|k: int| 0 <= k < s.len() ==> is_whitespace(#[trigger] s[k]),
    ensures
        trim(s) == Seq::<char>::empty(),
    decreases s.len(),
{
    if s.len() > 0 {
        assert(is_whitespace(s[0]));
        assert forall|k: int| 0 <= k < s.skip(1).len() implies is_whitespace(
            #[trigger] s.skip(1)[k],
        ) by {
            assert(s.skip(1)[k] == s[k + 1]);
        }
        lemma_trim_blank(s.skip(1));
    } else {
        assert(s =~= Seq::<char>::empty());
    }
}

proof fn lemma_trim_end_padding(s: Seq<char>, behind: Seq<char>)
    requires
        forall|k: int| 0 <= k < behind.len() ==> is_whitespace(#[trigger] behind[k]),
        s.len() > 0 && !is_whitespace(s.last()),
    ensures
        trim_end(s + behind) == s,
    decreases behind.len(),
{
    let all = s + behind;
    if behind.len() > 0 {
        assert(all.last() == behind[behind.len() - 1]);
        assert(all.drop_last() =~= s + behind.drop_last());
        assert forall|k: int| 0 <= k < behind.drop_last().len() implies is_whitespace(
            #[trigger] behind.drop_last()[k],
        ) by {
            assert(behind.drop_last()[k] == behind[k]);
        }
        lemma_trim_end_padding(s, behind.drop_last());
    } else {
        assert(all =~= s);
    }
}

/// Spaces, tabs and line breaks are white space; letters, digits and what is printed of ASCII
/// besides are not.
pub proof fn law_white_space(c: char)
    ensures
        c == ' ' || c == '\t' || c == '\n' || c == '\r' || c == '\u{b}' || c == '\u{c}' || c
            == '\u{a0}' || c == '\u{3000}' || c == '\u{2003}' ==> is_whitespace(c),
        '!' <= c <= '~' ==> !is_whitespace(c),
        is_alphanumeric(c) ==> !is_whitespace(c),
{
}

/// Letters and digits are those of ASCII, lower case is thirty-two characters above upper case,
/// and a separator is what it says.
pub proof fn law_characters(c: char, d: char)
    ensures
        is_alphanumeric(c) <==> ('0' <= c <= '9' || 'a' <= c <= 'z' || 'A' <= c <= 'Z'),
        is_digit(c) <==> '0' <= c <= '9',
        is_ascii_char(c) <==> (c as int) < 128,
        'A' <= c <= 'Z' ==> lower(c) as int == c as int + 32,
        'a' <= c <= 'z' ==> upper(c) as int == c as int - 32,
        Separator::Char(d).covers(c) <==> c == d,
        Separator::Whitespace.covers(c) <==> is_whitespace(c),
        Separator::NonAlphanumeric.covers(c) <==> !is_alphanumeric(c),
{
}

/// A part of a text without separators is all of it.
pub proof fn law_text_without_separator_is_one_part(s: Seq<char>, sep: Separator)
    requires
        forall|i: int| 0 <= i < s.len() ==> !sep.covers(#[trigger] s[i]),
    ensures
        split(s, sep) == seq![s],
{
    lemma_split_none(s, sep);
}

/// One digit more makes a number ten times as large and adds the digit.
pub proof fn law_decimal_digits(n: nat, d: nat)
    requires
        d < 10,
    ensures
        n > 0 ==> decimal(10 * n + d) == decimal(n).push(digit(d)),
        decimal(d) == seq![digit(d)],
        digit(d) as int == '0' as int + d,
{
    if n > 0 {
        assert((10 * n + d) / 10 == n && (10 * n + d) % 10 == d);
    }
}

} // verus!
