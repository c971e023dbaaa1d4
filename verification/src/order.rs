//! The order of texts, and sorting by it.
//!
//! Texts are ordered as `String` orders them. That is by their UTF-8 bytes, which is the same as
//! by their characters, first to last.

use vstd::prelude::*;
use vstd::relations::{sorted_by, total_ordering};

use crate::text::{lemma_take_next, same_text, views};

verus! {

/// Whether a text comes before another one or is equal to it.
pub open spec fn text_le(a: Seq<char>, b: Seq<char>) -> bool
    decreases a.len(),
{
    if a.len() == 0 {
        true
    } else if b.len() == 0 {
        false
    } else if a[0] != b[0] {
        a[0] < b[0]
    } else {
        text_le(a.skip(1), b.skip(1))
    }
}

/// Whether a text comes before another one.
pub open spec fn text_lt(a: Seq<char>, b: Seq<char>) -> bool {
    a != b && text_le(a, b)
}

/// [`text_le`] as a relation.
pub open spec fn by_text() -> spec_fn(Seq<char>, Seq<char>) -> bool {
    |a: Seq<char>, b: Seq<char>| text_le(a, b)
}

proof fn lemma_text_le_reflexive(a: Seq<char>)
    ensures
        text_le(a, a),
    decreases a.len(),
{
    if a.len() > 0 {
        lemma_text_le_reflexive(a.skip(1));
    }
}

proof fn lemma_text_le_antisymmetric(a: Seq<char>, b: Seq<char>)
    requires
        text_le(a, b),
        text_le(b, a),
    ensures
        a == b,
    decreases a.len(),
{
    if a.len() > 0 && b.len() > 0 {
        lemma_text_le_antisymmetric(a.skip(1), b.skip(1));
        assert(a =~= seq![a[0]] + a.skip(1));
        assert(b =~= seq![b[0]] + b.skip(1));
    } else {
        assert(a =~= b);
    }
}

proof fn lemma_text_le_transitive(a: Seq<char>, b: Seq<char>, c: Seq<char>)
    requires
        text_le(a, b),
        text_le(b, c),
    ensures
        text_le(a, c),
    decreases a.len(),
{
    if a.len() > 0 && b.len() > 0 && c.len() > 0 && a[0] == b[0] && b[0] == c[0] {
        lemma_text_le_transitive(a.skip(1), b.skip(1), c.skip(1));
    }
}

proof fn lemma_text_le_total(a: Seq<char>, b: Seq<char>)
    ensures
        text_le(a, b) || text_le(b, a),
    decreases a.len(),
{
    if a.len() > 0 && b.len() > 0 && a[0] == b[0] {
        lemma_text_le_total(a.skip(1), b.skip(1));
    }
}

/// The order of texts is total: any two texts compare, and only equal ones both ways.
pub proof fn lemma_text_order_is_total()
    ensures
        total_ordering(by_text()),
{
    let leq = by_text();
    assert forall|a: Seq<char>| #[trigger] leq(a, a) by {
        lemma_text_le_reflexive(a);
    }
    assert forall|a: Seq<char>, b: Seq<char>| #[trigger] leq(a, b) && #[trigger] leq(b, a) implies a
        == b by {
        lemma_text_le_antisymmetric(a, b);
    }
    assert forall|a: Seq<char>, b: Seq<char>, c: Seq<char>| #[trigger]
        leq(a, b) && #[trigger] leq(b, c) implies leq(a, c) by {
        lemma_text_le_transitive(a, b, c);
    }
    assert forall|a: Seq<char>, b: Seq<char>| #[trigger] leq(a, b) || #[trigger] leq(b, a) by {
        lemma_text_le_total(a, b);
    }
}

/// Whether `a` comes before `b` or is equal to it.
pub fn at_or_before(a: &str, b: &str) -> (r: bool)
    ensures
        r == text_le(a@, b@),
{
    let mut x = a.chars();
    let mut y = b.chars();
    let ghost mut n: int = 0;
    assert(a@.skip(0) =~= a@ && b@.skip(0) =~= b@);
    loop
        invariant
            0 <= n <= a@.len(),
            n <= b@.len(),
            vstd::std_specs::iter::IteratorSpec::remaining(&x) == a@.skip(n),
            vstd::std_specs::iter::IteratorSpec::remaining(&y) == b@.skip(n),
            text_le(a@, b@) == text_le(a@.skip(n), b@.skip(n)),
        decreases a@.len() - n,
    {
        match (x.next(), y.next()) {
            (None, _) => {
                return true;
            },
            (Some(_), None) => {
                return false;
            },
            (Some(c), Some(d)) => {
                if c != d {
                    return c < d;
                }
                proof {
                    assert(a@.skip(n).skip(1) =~= a@.skip(n + 1));
                    assert(b@.skip(n).skip(1) =~= b@.skip(n + 1));
                    n = n + 1;
                }
            },
        }
    }
}

/// The texts in ascending order, each as often as before.
pub open spec fn sort(s: Seq<Seq<char>>) -> Seq<Seq<char>> {
    s.sort_by(by_text())
}

/// Texts in ascending order with the elements of `s` are what sorting `s` gives.
pub proof fn lemma_is_sort(r: Seq<Seq<char>>, s: Seq<Seq<char>>)
    requires
        sorted_by(r, by_text()),
        r.to_multiset() == s.to_multiset(),
    ensures
        r == sort(s),
{
    lemma_text_order_is_total();
    s.lemma_sort_by_ensures(by_text());
    vstd::seq_lib::lemma_sorted_unique(r, sort(s), by_text());
}

/// Sorting looks at which texts there are and how often, not at where they stand.
pub proof fn lemma_sort_ignores_order(a: Seq<Seq<char>>, b: Seq<Seq<char>>)
    requires
        a.to_multiset() == b.to_multiset(),
    ensures
        sort(a) == sort(b),
{
    lemma_text_order_is_total();
    a.lemma_sort_by_ensures(by_text());
    lemma_is_sort(sort(a), b);
}

/// Where a text goes in a sorted list: behind all that do not come after it.
fn position(sorted: &Vec<String>, text: &str) -> (r: usize)
    requires
        sorted_by(views(sorted@), by_text()),
    ensures
        r <= sorted@.len(),
        forall|j: int| 0 <= j < r ==> text_le(#[trigger] sorted@[j]@, text@),
        forall|j: int| r <= j < sorted@.len() ==> text_lt(text@, #[trigger] sorted@[j]@),
{
    proof {
        lemma_text_order_is_total();
    }
    let ghost leq = by_text();
    let mut at: usize = sorted.len();
    while at > 0 && !at_or_before(sorted[at - 1].as_str(), text)
        invariant
            at <= sorted@.len(),
            leq == by_text(),
            total_ordering(leq),
            forall|j: int| at <= j < sorted@.len() ==> text_lt(text@, #[trigger] sorted@[j]@),
        decreases at,
    {
        at = at - 1;
        assert(leq(text@, sorted@[at as int]@) || leq(sorted@[at as int]@, text@));
        assert(leq(text@, text@));
    }
    assert forall|j: int| 0 <= j < at implies text_le(#[trigger] sorted@[j]@, text@) by {
        assert(views(sorted@)[j] == sorted@[j]@);
        assert(views(sorted@)[at - 1] == sorted@[at - 1]@);
        if j < at - 1 {
            assert(leq(views(sorted@)[j], views(sorted@)[at - 1]));
            assert(leq(sorted@[at - 1]@, text@));
        }
    }
    at
}

/// Sorts texts in ascending order.
pub fn sort_texts(texts: &Vec<String>) -> (r: Vec<String>)
    ensures
        views(r@) == sort(views(texts@)),
{
    let mut r: Vec<String> = Vec::new();
    let ghost all = views(texts@);
    assert(views(r@) =~= all.take(0));
    for i in 0..texts.len()
        invariant
            all == views(texts@),
            sorted_by(views(r@), by_text()),
            views(r@).to_multiset() == all.take(i as int).to_multiset(),
    {
        let at = position(&r, texts[i].as_str());
        let ghost before = views(r@);
        r.insert(at, texts[i].clone());
        proof {
            broadcast use vstd::seq_lib::group_to_multiset_ensures;

            assert(views(r@) =~= before.insert(at as int, all[i as int]));
            lemma_take_next(all, i as int);
        }
    }
    proof {
        assert(all.take(texts@.len() as int) =~= all);
        lemma_is_sort(views(r@), all);
    }
    r
}

/// In ascending order with no text twice.
pub open spec fn strictly_ascending(s: Seq<Seq<char>>) -> bool {
    forall|i: int, j: int| 0 <= i < j < s.len() ==> text_lt(#[trigger] s[i], #[trigger] s[j])
}

/// `r` lists the texts that occur in `s`, in ascending order and each once.
pub open spec fn is_set_of(r: Seq<Seq<char>>, s: Seq<Seq<char>>) -> bool {
    &&& strictly_ascending(r)
    &&& forall|t: Seq<char>| #[trigger] r.contains(t) <==> s.contains(t)
}

/// Adds a text to a strictly ascending list, unless it is in there.
pub fn insert_text(list: &mut Vec<String>, text: &str)
    requires
        strictly_ascending(views(old(list)@)),
    ensures
        is_set_of(views(final(list)@), views(old(list)@).push(text@)),
{
    proof {
        lemma_text_order_is_total();
    }
    let ghost leq = by_text();
    let ghost before = views(list@);
    assert(sorted_by(before, leq)) by {
        assert forall|i: int, j: int| 0 <= i < j < before.len() implies #[trigger] leq(
            before[i],
            before[j],
        ) by {
            assert(text_lt(before[i], before[j]));
        }
    }
    let at = position(list, text);
    assert(forall|j: int| 0 <= j < before.len() ==> before[j] == #[trigger] list@[j]@);
    if at > 0 && same_text(list[at - 1].as_str(), text) {
        assert(before.push(text@)[at - 1] == text@);
        assert forall|t: Seq<char>| before.contains(t) implies before.push(text@).contains(t) by {
            let k = choose|k: int| 0 <= k < before.len() && before[k] == t;
            assert(before.push(text@)[k] == t);
        }
        assert forall|t: Seq<char>| before.push(text@).contains(t) implies before.contains(t) by {
            let k = choose|k: int| 0 <= k < before.push(text@).len() && before.push(text@)[k] == t;
            if k == before.len() {
                assert(before[at - 1] == t);
            } else {
                assert(before[k] == t);
            }
        }
        return;
    }
    assert(at > 0 ==> before[at - 1] != text@);
    assert(forall|j: int| 0 <= j < at ==> leq(#[trigger] before[j], text@));
    assert(forall|j: int| at <= j < before.len() ==> text_lt(text@, #[trigger] before[j]));
    let added = String::from_str(text);
    list.insert(at, added);
    proof {
        let after = views(list@);
        assert(after =~= before.insert(at as int, text@));
        assert forall|j: int| 0 <= j < at implies text_lt(#[trigger] before[j], text@) by {
            if before[j] == text@ && j < at - 1 {
                assert(text_lt(before[j], before[at - 1]));
                assert(leq(before[j], before[at - 1]) && leq(before[at - 1], text@));
            }
        }
        assert(strictly_ascending(after)) by {
            assert forall|i: int, j: int| 0 <= i < j < after.len() implies text_lt(
                #[trigger] after[i],
                #[trigger] after[j],
            ) by {
                if i < at && j < at {
                    assert(text_lt(before[i], before[j]));
                } else if i < at && j > at {
                    assert(text_lt(before[i], before[j - 1]));
                } else if i > at {
                    assert(text_lt(before[i - 1], before[j - 1]));
                } else if i < at {
                    assert(text_lt(before[i], text@));
                } else {
                    assert(text_lt(text@, before[j - 1]));
                }
            }
        }
        let pushed = before.push(text@);
        assert forall|t: Seq<char>| #[trigger] after.contains(t) <==> pushed.contains(t) by {
            if after.contains(t) {
                let k = choose|k: int| 0 <= k < after.len() && after[k] == t;
                if k < at {
                    assert(pushed[k] == t);
                } else if k == at {
                    assert(pushed[before.len() as int] == t);
                } else {
                    assert(pushed[k - 1] == t);
                }
            }
            if pushed.contains(t) {
                let k = choose|k: int| 0 <= k < pushed.len() && pushed[k] == t;
                if k == before.len() {
                    assert(after[at as int] == t);
                } else if k < at {
                    assert(after[k] == t);
                } else {
                    assert(after[k + 1] == t);
                }
            }
        }
    }
}

/// There is one such list only.
pub proof fn lemma_set_is_unique(a: Seq<Seq<char>>, b: Seq<Seq<char>>, s: Seq<Seq<char>>)
    requires
        is_set_of(a, s),
        is_set_of(b, s),
    ensures
        a == b,
{
    assert forall|t: Seq<char>| #[trigger] a.contains(t) <==> b.contains(t) by {
        assert(a.contains(t) <==> s.contains(t));
        assert(b.contains(t) <==> s.contains(t));
    }
    lemma_ascending_unique(a, b);
}

proof fn lemma_ascending_unique(a: Seq<Seq<char>>, b: Seq<Seq<char>>)
    requires
        strictly_ascending(a),
        strictly_ascending(b),
        forall|t: Seq<char>| #[trigger] a.contains(t) <==> b.contains(t),
    ensures
        a == b,
    decreases a.len(),
{
    if a.len() == 0 {
        if b.len() > 0 {
            assert(b.contains(b[0]));
            assert(a.contains(b[0]));
        }
        assert(a =~= b);
    } else {
        assert(a.contains(a[0]));
        assert(b.contains(a[0]));
        let j = choose|j: int| 0 <= j < b.len() && b[j] == a[0];
        if j > 0 {
            assert(b.contains(b[0]));
            assert(a.contains(b[0]));
            let k = choose|k: int| 0 <= k < a.len() && a[k] == b[0];
            assert(text_lt(b[0], b[j]));
            if k > 0 {
                assert(text_lt(a[0], a[k]));
                lemma_text_le_antisymmetric(a[0], b[0]);
            }
        }
        assert(a[0] == b[0]);
        let (x, y) = (a.skip(1), b.skip(1));
        assert forall|t: Seq<char>| #[trigger] x.contains(t) <==> y.contains(t) by {
            lemma_rest_contains(a, t);
            lemma_rest_contains(b, t);
            assert(a.contains(t) <==> b.contains(t));
        }
        assert forall|i: int, j: int| 0 <= i < j < x.len() implies text_lt(
            #[trigger] x[i],
            #[trigger] x[j],
        ) by {
            assert(text_lt(a[i + 1], a[j + 1]));
        }
        assert forall|i: int, j: int| 0 <= i < j < y.len() implies text_lt(
            #[trigger] y[i],
            #[trigger] y[j],
        ) by {
            assert(text_lt(b[i + 1], b[j + 1]));
        }
        lemma_ascending_unique(x, y);
        assert(a =~= seq![a[0]] + x);
        assert(b =~= seq![b[0]] + y);
    }
}

proof fn lemma_rest_contains(a: Seq<Seq<char>>, t: Seq<char>)
    requires
        a.len() > 0,
        strictly_ascending(a),
    ensures
        a.skip(1).contains(t) <==> a.contains(t) && t != a[0],
{
    let x = a.skip(1);
    if x.contains(t) {
        let i = choose|i: int| 0 <= i < x.len() && x[i] == t;
        assert(a[i + 1] == t);
        assert(text_lt(a[0], a[i + 1]));
    }
    if a.contains(t) && t != a[0] {
        let i = choose|i: int| 0 <= i < a.len() && a[i] == t;
        assert(x[i - 1] == t);
    }
}

/// A strictly ascending list has no text twice.
pub proof fn lemma_ascending_is_distinct(s: Seq<Seq<char>>)
    requires
        strictly_ascending(s),
    ensures
        s.no_duplicates(),
{
    assert forall|i: int, j: int| 0 <= i < s.len() && 0 <= j < s.len() && i != j implies s[i]
        != s[j] by {
        if i < j {
            assert(text_lt(s[i], s[j]));
        } else {
            assert(text_lt(s[j], s[i]));
        }
    }
}

/// Texts are ordered by the first character in which they differ, and a text comes before those
/// that go on behind it.
pub proof fn law_first_difference_orders_texts(
    same: Seq<char>,
    x: char,
    a: Seq<char>,
    y: char,
    b: Seq<char>,
)
    ensures
        x < y ==> text_lt(same + seq![x] + a, same + seq![y] + b),
        text_lt(same, same + seq![x] + a),
        !text_le(same + seq![x] + a, same),
    decreases same.len(),
{
    let p = same + seq![x] + a;
    let q = same + seq![y] + b;
    if same.len() > 0 {
        law_first_difference_orders_texts(same.skip(1), x, a, y, b);
        assert(p.skip(1) =~= same.skip(1) + seq![x] + a);
        assert(q.skip(1) =~= same.skip(1) + seq![y] + b);
    }
    assert(p[same.len() as int] == x);
    assert(q[same.len() as int] == y);
    assert(p.len() > same.len());
}

/// Sorting keeps every text, as often as it was there, and puts them in ascending order.
pub proof fn law_sorting_keeps_every_text(s: Seq<Seq<char>>)
    ensures
        sort(s).to_multiset() == s.to_multiset(),
        sort(s).len() == s.len(),
        forall|t: Seq<char>| #[trigger] sort(s).contains(t) <==> s.contains(t),
        forall|i: int, j: int|
            0 <= i < j < sort(s).len() ==> text_le(#[trigger] sort(s)[i], #[trigger] sort(s)[j]),
{
    broadcast use vstd::seq_lib::group_to_multiset_ensures;

    lemma_text_order_is_total();
    s.lemma_sort_by_ensures(by_text());
    assert forall|t: Seq<char>| #[trigger] sort(s).contains(t) <==> s.contains(t) by {
        assert(sort(s).contains(t) <==> sort(s).to_multiset().count(t) > 0);
        assert(s.contains(t) <==> s.to_multiset().count(t) > 0);
    }
    assert(sort(s).to_multiset().len() == s.to_multiset().len());
    assert forall|i: int, j: int| 0 <= i < j < sort(s).len() implies text_le(
        #[trigger] sort(s)[i],
        #[trigger] sort(s)[j],
    ) by {
        let leq = by_text();
        assert(leq(sort(s)[i], sort(s)[j]));
    }
}

/// A list of texts as a set has each of them once, in ascending order, and no other.
pub proof fn law_set_lists_each_text_once(r: Seq<Seq<char>>, s: Seq<Seq<char>>)
    requires
        is_set_of(r, s),
    ensures
        r.no_duplicates(),
        forall|t: Seq<char>| #[trigger] r.contains(t) <==> s.contains(t),
        forall|i: int, j: int|
            0 <= i < j < r.len() ==> text_le(#[trigger] r[i], #[trigger] r[j]) && r[i] != r[j],
{
    lemma_ascending_is_distinct(r);
}

} // verus!
