//! Putting things into the order of their keys.
use vstd::prelude::*;

use crate::lists;
use crate::text;

verus! {

/// The keys come in the order of texts.
pub open spec fn in_key_order<E>(s: Seq<(Seq<char>, E)>) -> bool {
    forall|i: int, j: int|
        0 <= i < j < s.len() ==> text::text_le((#[trigger] s[i]).0, (#[trigger] s[j]).0)
}

/// Whether something has the given key.
pub open spec fn has_key<E>(key: Seq<char>) -> spec_fn((Seq<char>, E)) -> bool {
    |e: (Seq<char>, E)| e.0 == key
}

/// What has the given key, in the order in which it comes.
pub open spec fn with_key<E>(s: Seq<(Seq<char>, E)>, key: Seq<char>) -> Seq<(Seq<char>, E)> {
    s.filter(has_key(key))
}

/// `s` is `given` put into the order of the keys, where what has the same key keeps the order in
/// which it was given.
pub open spec fn is_key_order_of<E>(
    given: Seq<(Seq<char>, E)>,
    s: Seq<(Seq<char>, E)>,
) -> bool {
    &&& in_key_order(s)
    &&& forall|key: Seq<char>| #[trigger] with_key(s, key) == with_key(given, key)
}

/// `given` in the order of the keys.
pub open spec fn by_key<E>(given: Seq<(Seq<char>, E)>) -> Seq<(Seq<char>, E)> {
    choose|s: Seq<(Seq<char>, E)>| is_key_order_of(given, s)
}

// ---------------------------------------------------------------------------
// Uniqueness
// ---------------------------------------------------------------------------
/// The last of a sequence is the last of what has its key.
proof fn lemma_last_with_key<E>(s: Seq<(Seq<char>, E)>)
    requires
        s.len() > 0,
    ensures
        ({
            let key = s.last().0;
            &&& with_key(s, key).len() > 0
            &&& with_key(s, key).last() == s.last()
            &&& with_key(s, key).drop_last() == with_key(s.drop_last(), key)
        }),
        forall|key: Seq<char>|
            key != s.last().0 ==> #[trigger] with_key(s, key) == with_key(s.drop_last(), key),
{
    let key = s.last().0;
    assert(s.drop_last().push(s.last()) =~= s);
    lists::lemma_filter_push(s.drop_last(), s.last(), has_key(key));
    assert(with_key(s, key).drop_last() =~= with_key(s.drop_last(), key));
    assert forall|other: Seq<char>| other != key implies #[trigger] with_key(s, other) == with_key(
        s.drop_last(),
        other,
    ) by {
        lists::lemma_filter_push(s.drop_last(), s.last(), has_key(other));
    }
}

/// What has the key of the last of `b` makes `a` end no earlier than `b` does.
proof fn lemma_ends_no_earlier<E>(a: Seq<(Seq<char>, E)>, b: Seq<(Seq<char>, E)>)
    requires
        b.len() > 0,
        in_key_order(a),
        forall|key: Seq<char>| #[trigger] with_key(a, key) == with_key(b, key),
    ensures
        a.len() > 0,
        text::text_le(b.last().0, a.last().0),
{
    let key = b.last().0;
    lemma_last_with_key(b);
    let like = has_key::<E>(key);
    assert(with_key(a, key).len() > 0);
    lists::lemma_filter_within(a, like);
    let e = a.filter(like)[0];
    assert(a.contains(e));
    let k = choose|k: int| 0 <= k < a.len() && a[k] == e;
    if k == a.len() - 1 {
        text::lemma_text_reflexive(key);
    } else {
        assert(text::text_le(a[k].0, a[a.len() - 1].0));
    }
}

/// There is one order of keys only.
pub proof fn law_key_order_unique<E>(
    given: Seq<(Seq<char>, E)>,
    a: Seq<(Seq<char>, E)>,
    b: Seq<(Seq<char>, E)>,
)
    requires
        is_key_order_of(given, a),
        is_key_order_of(given, b),
    ensures
        a == b,
{
    assert forall|key: Seq<char>| #[trigger] with_key(a, key) == with_key(b, key) by {
        assert(with_key(a, key) == with_key(given, key));
        assert(with_key(b, key) == with_key(given, key));
    }
    lemma_same_order(a, b);
}

proof fn lemma_same_order<E>(a: Seq<(Seq<char>, E)>, b: Seq<(Seq<char>, E)>)
    requires
        in_key_order(a),
        in_key_order(b),
        forall|key: Seq<char>| #[trigger] with_key(a, key) == with_key(b, key),
    ensures
        a == b,
    decreases a.len(),
{
    if a.len() == 0 {
        if b.len() > 0 {
            lemma_ends_no_earlier(a, b);
        }
        assert(a =~= b);
    } else {
        assert forall|key: Seq<char>| #[trigger] with_key(b, key) == with_key(a, key) by {
            assert(with_key(a, key) == with_key(b, key));
        }
        lemma_ends_no_earlier(b, a);
        lemma_ends_no_earlier(a, b);
        text::lemma_text_antisymmetric(a.last().0, b.last().0);
        let last = a.last().0;
        lemma_last_with_key(a);
        lemma_last_with_key(b);
        assert(with_key(a, last) == with_key(b, last));
        let x = a.drop_last();
        let y = b.drop_last();
        assert forall|key: Seq<char>| #[trigger] with_key(x, key) == with_key(y, key) by {
            assert(with_key(a, key) == with_key(b, key));
        }
        assert(in_key_order(x)) by {
            assert(forall|i: int| 0 <= i < x.len() ==> x[i] == a[i]);
        }
        assert(in_key_order(y)) by {
            assert(forall|i: int| 0 <= i < y.len() ==> y[i] == b[i]);
        }
        lemma_same_order(x, y);
        assert(a =~= x.push(a.last()));
        assert(b =~= y.push(b.last()));
    }
}

// ---------------------------------------------------------------------------
// Existence
// ---------------------------------------------------------------------------
/// Putting one more behind all that comes no later than it keeps the order of keys.
pub proof fn lemma_insert_in_order<E>(s: Seq<(Seq<char>, E)>, e: (Seq<char>, E), p: int)
    requires
        in_key_order(s),
        0 <= p <= s.len(),
        forall|i: int| 0 <= i < p ==> text::text_le((#[trigger] s[i]).0, e.0),
        forall|i: int| p <= i < s.len() ==> !text::text_le((#[trigger] s[i]).0, e.0),
    ensures
        in_key_order(s.insert(p, e)),
        forall|key: Seq<char>| #[trigger]
            with_key(s.insert(p, e), key) == with_key(s.push(e), key),
{
    let t = s.insert(p, e);
    assert forall|i: int, j: int| 0 <= i < j < t.len() implies text::text_le(
        (#[trigger] t[i]).0,
        (#[trigger] t[j]).0,
    ) by {
        if i == p {
            assert(t[j] == s[j - 1]);
            text::lemma_text_total(s[j - 1].0, e.0);
        } else if j == p {
            assert(t[i] == s[i]);
        } else {
            assert(t[i] == s[if i < p { i } else { i - 1 }]);
            assert(t[j] == s[if j < p { j } else { j - 1 }]);
        }
    }
    let front = s.take(p);
    let back = s.skip(p);
    assert forall|key: Seq<char>| #[trigger] with_key(t, key) == with_key(s.push(e), key) by {
        let like = has_key::<E>(key);
        assert(t =~= front.push(e) + back);
        assert(s.push(e) =~= (front + back).push(e));
        Seq::filter_distributes_over_add(front.push(e), back, like);
        Seq::filter_distributes_over_add(front, back, like);
        lists::lemma_filter_push(front, e, like);
        lists::lemma_filter_push(front + back, e, like);
        if like(e) {
            assert forall|i: int| 0 <= i < back.len() implies !like(#[trigger] back[i]) by {
                assert(back[i] == s[p + i]);
                text::lemma_text_reflexive(key);
            }
            lists::lemma_filter_none(back, like);
            assert(with_key(t, key) =~= with_key(s.push(e), key));
        }
    }
}

/// Putting one more into what is in order puts one more of what was given into order.
pub proof fn lemma_order_extended<E>(
    given: Seq<(Seq<char>, E)>,
    s: Seq<(Seq<char>, E)>,
    e: (Seq<char>, E),
    p: int,
)
    requires
        is_key_order_of(given, s),
        0 <= p <= s.len(),
        forall|i: int| 0 <= i < p ==> text::text_le((#[trigger] s[i]).0, e.0),
        forall|i: int| p <= i < s.len() ==> !text::text_le((#[trigger] s[i]).0, e.0),
    ensures
        is_key_order_of(given.push(e), s.insert(p, e)),
{
    lemma_insert_in_order(s, e, p);
    let t = s.insert(p, e);
    assert forall|key: Seq<char>| #[trigger] with_key(t, key) == with_key(given.push(e), key) by {
        let like = has_key::<E>(key);
        lists::lemma_filter_push(given, e, like);
        lists::lemma_filter_push(s, e, like);
        assert(with_key(s, key) == with_key(given, key));
    }
}

/// Where something with the given key belongs in an ordered sequence.
proof fn lemma_place<E>(s: Seq<(Seq<char>, E)>, key: Seq<char>) -> (p: int)
    requires
        in_key_order(s),
    ensures
        0 <= p <= s.len(),
        forall|i: int| 0 <= i < p ==> text::text_le((#[trigger] s[i]).0, key),
        forall|i: int| p <= i < s.len() ==> !text::text_le((#[trigger] s[i]).0, key),
    decreases s.len(),
{
    if s.len() == 0 {
        0
    } else if text::text_le(s.last().0, key) {
        assert forall|i: int| 0 <= i < s.len() implies text::text_le(
            (#[trigger] s[i]).0,
            key,
        ) by {
            if i < s.len() - 1 {
                text::lemma_text_transitive(s[i].0, s[s.len() - 1].0, key);
            }
        }
        s.len() as int
    } else {
        let front = s.drop_last();
        assert(in_key_order(front)) by {
            assert(forall|i: int| 0 <= i < front.len() ==> front[i] == s[i]);
        }
        let p = lemma_place(front, key);
        assert forall|i: int| 0 <= i < p implies text::text_le((#[trigger] s[i]).0, key) by {
            assert(s[i] == front[i]);
        }
        assert forall|i: int| p <= i < s.len() implies !text::text_le(
            (#[trigger] s[i]).0,
            key,
        ) by {
            if i < front.len() {
                assert(s[i] == front[i]);
            }
        }
        p
    }
}

/// Anything with keys can be put into their order.
proof fn lemma_key_order_exists<E>(given: Seq<(Seq<char>, E)>)
    ensures
        exists|s: Seq<(Seq<char>, E)>| is_key_order_of(given, s),
    decreases given.len(),
{
    if given.len() == 0 {
        assert(is_key_order_of(given, given));
    } else {
        let front = given.drop_last();
        let e = given.last();
        lemma_key_order_exists(front);
        let s = choose|s: Seq<(Seq<char>, E)>| is_key_order_of(front, s);
        let p = lemma_place(s, e.0);
        lemma_order_extended(front, s, e, p);
        assert(given =~= front.push(e));
        assert(is_key_order_of(given, s.insert(p, e)));
    }
}

/// What is put into the order of its keys is in that order, and what has the same key keeps the
/// order in which it was given.
pub proof fn law_by_key_is_key_order<E>(given: Seq<(Seq<char>, E)>)
    ensures
        is_key_order_of(given, by_key(given)),
{
    lemma_key_order_exists(given);
}

/// Putting things into the order of their keys neither loses nor adds any.
pub proof fn law_order_keeps_all<E>(given: Seq<(Seq<char>, E)>, s: Seq<(Seq<char>, E)>)
    requires
        is_key_order_of(given, s),
    ensures
        s.to_multiset() == given.to_multiset(),
        s.len() == given.len(),
{
    broadcast use vstd::seq_lib::group_to_multiset_ensures;

    assert forall|e: (Seq<char>, E)| #[trigger]
        s.to_multiset().count(e) == given.to_multiset().count(e) by {
        let like = has_key::<E>(e.0);
        lists::lemma_filter_count(s, like, e);
        lists::lemma_filter_count(given, like, e);
        assert(with_key(s, e.0) == with_key(given, e.0));
    }
    assert(s.to_multiset() =~= given.to_multiset());
    assert(s.to_multiset().len() == s.len());
    assert(given.to_multiset().len() == given.len());
}

/// What comes later in the order of keys has a later key, or the same: where two keys first
/// differ, the earlier one has the smaller code point, and no key comes before a shorter one that
/// it starts with.
pub proof fn law_keys_by_code_points<E>(given: Seq<(Seq<char>, E)>, i: int, j: int, k: int)
    requires
        0 <= i < j < by_key(given).len(),
        0 <= k <= by_key(given)[i].0.len(),
        k <= by_key(given)[j].0.len(),
        forall|n: int| 0 <= n < k ==> by_key(given)[i].0[n] == by_key(given)[j].0[n],
    ensures
        ({
            let x = by_key(given)[i].0;
            let y = by_key(given)[j].0;
            &&& k == y.len() ==> k == x.len()
            &&& k < x.len() && k < y.len() ==> (x[k] as int) <= (y[k] as int)
        }),
{
    law_by_key_is_key_order(given);
    let s = by_key(given);
    let x = s[i].0;
    let y = s[j].0;
    assert(text::text_le(x, y));
    if k == x.len() || k == y.len() || x[k] != y[k] {
        text::law_order_by_code_points(x, y, k);
    }
}

} // verus!
