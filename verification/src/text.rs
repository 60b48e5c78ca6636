//! Text as sequences of characters: searching, replacing, ordering.
use vstd::prelude::*;

verus! {

// ---------------------------------------------------------------------------
// Conversions
// ---------------------------------------------------------------------------
/// `String::push` appends the given character to the end of the string.
pub assume_specification[ String::push ](s: &mut String, c: char)
    ensures
        final(s)@ == old(s)@.push(c),
;

/// The characters of a string, one by one.
pub fn chars_of(s: &str) -> (v: Vec<char>)
    ensures
        v@ == s@,
{
    let mut v: Vec<char> = Vec::new();
    for c in iter: s.chars()
        invariant
            v@ == iter.seq().take(iter.index() as int),
            iter.seq() == s@,
    {
        v.push(c);
    }
    v
}

/// The string made of the given characters.
pub fn string_of(v: &[char]) -> (s: String)
    ensures
        s@ == v@,
{
    let mut s = String::new();
    for i in 0..v.len()
        invariant
            s@ == v@.take(i as int),
    {
        s.push(v[i]);
    }
    s
}

/// Whether two texts are the same.
pub fn same_text(a: &str, b: &str) -> (r: bool)
    ensures
        r == (a@ == b@),
{
    a.to_owned() == b.to_owned()
}

/// Appends all of `tail` to `out`.
pub fn push_all(out: &mut Vec<char>, tail: &[char])
    ensures
        final(out)@ == old(out)@ + tail@,
{
    for i in 0..tail.len()
        invariant
            out@ == old(out)@ + tail@.take(i as int),
    {
        out.push(tail[i]);
    }
}

/// Appends `tail[from..to]` to `out`.
pub fn push_range(out: &mut Vec<char>, tail: &[char], from: usize, to: usize)
    requires
        from <= to <= tail@.len(),
    ensures
        final(out)@ == old(out)@ + tail@.subrange(from as int, to as int),
{
    let mut i: usize = from;
    while i < to
        invariant
            from <= i <= to <= tail@.len(),
            out@ == old(out)@ + tail@.subrange(from as int, i as int),
        decreases to - i,
    {
        out.push(tail[i]);
        i += 1;
    }
}

// ---------------------------------------------------------------------------
// Searching
// ---------------------------------------------------------------------------
/// `needle` stands in `hay` at position `i`.
pub open spec fn occurs_at(hay: Seq<char>, needle: Seq<char>, i: int) -> bool {
    &&& 0 <= i
    &&& i + needle.len() <= hay.len()
    &&& hay.subrange(i, i + needle.len()) == needle
}

/// `needle` stands somewhere in `hay`.
pub open spec fn occurs(hay: Seq<char>, needle: Seq<char>) -> bool {
    exists|i: int| occurs_at(hay, needle, i)
}

/// `i` is the first position, from `from` on, at which `needle` stands in `hay`.
pub open spec fn is_first(hay: Seq<char>, needle: Seq<char>, from: int, i: int) -> bool {
    &&& from <= i
    &&& occurs_at(hay, needle, i)
    &&& forall|j: int| from <= j < i ==> !occurs_at(hay, needle, j)
}

/// The first position of `needle` in `hay`, from `from` on.
pub open spec fn find(hay: Seq<char>, needle: Seq<char>, from: int) -> Option<int> {
    if exists|i: int| is_first(hay, needle, from, i) {
        Some(choose|i: int| is_first(hay, needle, from, i))
    } else {
        None
    }
}

/// `find` gives the first position, where there is one.
pub proof fn lemma_find_is(hay: Seq<char>, needle: Seq<char>, from: int, i: int)
    requires
        is_first(hay, needle, from, i),
    ensures
        find(hay, needle, from) == Some(i),
{
    let k = choose|k: int| is_first(hay, needle, from, k);
    assert(is_first(hay, needle, from, k));
    if k < i {
        assert(!occurs_at(hay, needle, k));
    }
    if i < k {
        assert(!occurs_at(hay, needle, i));
    }
}

/// `find` gives nothing exactly where the needle does not stand from `from` on.
pub proof fn lemma_find_none(hay: Seq<char>, needle: Seq<char>, from: int)
    ensures
        find(hay, needle, from) is None <==> forall|j: int|
            from <= j ==> !occurs_at(hay, needle, j),
{
    if find(hay, needle, from) is None {
        assert forall|j: int| from <= j implies !occurs_at(hay, needle, j) by {
            lemma_first_exists(hay, needle, from, j);
        }
    }
}

/// Below any position of the needle there is a first one.
proof fn lemma_first_exists(hay: Seq<char>, needle: Seq<char>, from: int, j: int)
    requires
        from <= j,
    ensures
        occurs_at(hay, needle, j) ==> exists|i: int| is_first(hay, needle, from, i),
    decreases j - from,
{
    if occurs_at(hay, needle, j) {
        if forall|k: int| from <= k < j ==> !occurs_at(hay, needle, k) {
            assert(is_first(hay, needle, from, j));
        } else {
            let k = choose|k: int| from <= k < j && occurs_at(hay, needle, k);
            lemma_first_exists(hay, needle, from, k);
        }
    }
}

/// Whether `needle` stands in `hay` at position `i`.
pub fn matches_at(hay: &[char], needle: &[char], i: usize) -> (r: bool)
    ensures
        r == occurs_at(hay@, needle@, i as int),
{
    let n: usize = hay.len();
    if needle.len() > n || i > n - needle.len() {
        return false;
    }
    let mut k: usize = 0;
    while k < needle.len()
        invariant
            n == hay@.len(),
            i + needle@.len() <= hay@.len(),
            k <= needle@.len(),
            hay@.subrange(i as int, i + k) == needle@.take(k as int),
        decreases needle@.len() - k,
    {
        if hay[i + k] != needle[k] {
            proof {
                assert(hay@.subrange(i as int, i + needle@.len())[k as int] == hay@[i + k]);
            }
            return false;
        }
        proof {
            assert(hay@.subrange(i as int, i + k + 1) =~= hay@.subrange(i as int, i + k).push(
                hay@[i + k],
            ));
            assert(needle@.take(k + 1) =~= needle@.take(k as int).push(needle@[k as int]));
        }
        k += 1;
    }
    proof {
        assert(needle@.take(needle@.len() as int) =~= needle@);
    }
    true
}

/// The first position of `needle` in `hay`, from `from` on.
pub fn find_from(hay: &[char], needle: &[char], from: usize) -> (r: Option<usize>)
    ensures
        match r {
            Some(i) => find(hay@, needle@, from as int) == Some(i as int),
            None => find(hay@, needle@, from as int) is None,
        },
{
    let mut i: usize = from;
    while i <= hay.len() && needle.len() <= hay.len() - i
        invariant
            from <= i,
            forall|j: int| from <= j < i ==> !occurs_at(hay@, needle@, j),
        decreases hay@.len() + 1 - i,
    {
        if matches_at(hay, needle, i) {
            proof {
                lemma_find_is(hay@, needle@, from as int, i as int);
            }
            return Some(i);
        }
        if i == hay.len() {
            proof {
                lemma_find_none(hay@, needle@, from as int);
            }
            return None;
        }
        i += 1;
    }
    proof {
        lemma_find_none(hay@, needle@, from as int);
    }
    None
}

// ---------------------------------------------------------------------------
// Replacing
// ---------------------------------------------------------------------------
/// `s` with every occurrence of `from` replaced by `to`. Occurrences are taken
/// from the left and do not overlap; what is put in is not searched again.
pub open spec fn replace_all(s: Seq<char>, from: Seq<char>, to: Seq<char>) -> Seq<char>
    decreases s.len(),
{
    match find(s, from, 0) {
        Some(i) => if from.len() > 0 {
            s.take(i) + to + replace_all(s.skip(i + from.len()), from, to)
        } else {
            s
        },
        None => s,
    }
}

/// Searching from `p` on is searching in what is left after `p`.
pub proof fn lemma_find_skip(s: Seq<char>, needle: Seq<char>, p: int)
    requires
        0 <= p <= s.len(),
    ensures
        match find(s, needle, p) {
            Some(i) => find(s.skip(p), needle, 0) == Some(i - p),
            None => find(s.skip(p), needle, 0) is None,
        },
{
    let t = s.skip(p);
    assert forall|j: int| p <= j implies occurs_at(s, needle, j) == occurs_at(t, needle, j - p) by {
        if j + needle.len() <= s.len() {
            assert(s.subrange(j, j + needle.len()) =~= t.subrange(j - p, j - p + needle.len()));
        }
    }
    match find(s, needle, p) {
        Some(i) => {
            assert(is_first(s, needle, p, i));
            assert forall|j: int| 0 <= j < i - p implies !occurs_at(t, needle, j) by {
                assert(!occurs_at(s, needle, j + p));
            }
            lemma_find_is(t, needle, 0, i - p);
        },
        None => {
            lemma_find_none(s, needle, p);
            assert forall|j: int| 0 <= j implies !occurs_at(t, needle, j) by {
                assert(!occurs_at(s, needle, j + p));
            }
            lemma_find_none(t, needle, 0);
        },
    }
}

/// `s` with every occurrence of `from` replaced by `to`.
pub fn replaced(s: &[char], from: &[char], to: &[char]) -> (r: Vec<char>)
    requires
        from@.len() > 0,
    ensures
        r@ == replace_all(s@, from@, to@),
{
    let mut out: Vec<char> = Vec::new();
    let mut p: usize = 0;
    let n: usize = s.len();
    proof {
        assert(s@.skip(0) =~= s@);
    }
    loop
        invariant
            n == s@.len(),
            from@.len() > 0,
            p <= s@.len(),
            out@ + replace_all(s@.skip(p as int), from@, to@) == replace_all(s@, from@, to@),
        decreases s@.len() - p,
    {
        proof {
            lemma_find_skip(s@, from@, p as int);
        }
        match find_from(s, from, p) {
            Some(i) => {
                let ghost rest = s@.skip(p as int);
                push_range(&mut out, s, p, i);
                push_all(&mut out, to);
                proof {
                    assert(rest.take(i - p) =~= s@.subrange(p as int, i as int));
                    assert(rest.skip(i - p + from@.len()) =~= s@.skip(i + from@.len()));
                }
                p = i + from.len();
            },
            None => {
                let ghost rest = s@.skip(p as int);
                push_range(&mut out, s, p, n);
                proof {
                    assert(rest =~= s@.subrange(p as int, s@.len() as int));
                }
                return out;
            },
        }
    }
}

// ---------------------------------------------------------------------------
// Splitting
// ---------------------------------------------------------------------------
/// The characters of each of the strings.
pub open spec fn texts(strings: Seq<String>) -> Seq<Seq<char>> {
    strings.map_values(|s: String| s@)
}

/// `c` is one of the characters of `s`.
pub open spec fn has_char(s: Seq<char>, c: char) -> bool {
    exists|i: int| 0 <= i < s.len() && s[i] == c
}

/// The pieces of `s` between the separators: one more than there are separators.
pub open spec fn pieces(s: Seq<char>, separator: char) -> Seq<Seq<char>>
    decreases s.len(),
{
    if s.len() == 0 {
        seq![Seq::empty()]
    } else {
        let before = pieces(s.drop_last(), separator);
        if s.last() == separator {
            before.push(Seq::empty())
        } else {
            before.drop_last().push(before.last().push(s.last()))
        }
    }
}

/// There is always a piece.
pub proof fn lemma_pieces_nonempty(s: Seq<char>, separator: char)
    ensures
        pieces(s, separator).len() > 0,
    decreases s.len(),
{
    if s.len() > 0 {
        lemma_pieces_nonempty(s.drop_last(), separator);
    }
}

/// No piece holds the separator.
pub proof fn lemma_pieces_clean(s: Seq<char>, separator: char)
    ensures
        forall|i: int|
            0 <= i < pieces(s, separator).len() ==> !has_char(
                #[trigger] pieces(s, separator)[i],
                separator,
            ),
    decreases s.len(),
{
    lemma_pieces_nonempty(s, separator);
    if s.len() > 0 {
        let before = pieces(s.drop_last(), separator);
        lemma_pieces_clean(s.drop_last(), separator);
        lemma_pieces_nonempty(s.drop_last(), separator);
        let all = pieces(s, separator);
        assert forall|i: int| 0 <= i < all.len() implies !has_char(
            #[trigger] all[i],
            separator,
        ) by {
            if i < before.len() {
                assert(!has_char(before[i], separator));
            }
            if i < before.len() && all[i] != before[i] {
                assert(all[i] == before[i].push(s.last()));
                assert forall|k: int| 0 <= k < all[i].len() implies all[i][k] != separator by {
                    if k < before[i].len() {
                        assert(before[i][k] == all[i][k]);
                    }
                }
            }
        }
    }
}

/// The characters of the pieces are characters of the text.
pub proof fn lemma_pieces_chars(s: Seq<char>, separator: char)
    ensures
        forall|i: int, k: int|
            0 <= i < pieces(s, separator).len() && 0 <= k < pieces(s, separator)[i].len()
                ==> has_char(s, #[trigger] pieces(s, separator)[i][k]),
    decreases s.len(),
{
    let all = pieces(s, separator);
    if s.len() > 0 {
        let front = s.drop_last();
        let before = pieces(front, separator);
        lemma_pieces_nonempty(front, separator);
        lemma_pieces_chars(front, separator);
        assert forall|i: int, k: int| 0 <= i < all.len() && 0 <= k < all[i].len() implies has_char(
            s,
            #[trigger] all[i][k],
        ) by {
            if i < before.len() && k < before[i].len() {
                assert(all[i][k] == before[i][k]);
                let j = choose|j: int| 0 <= j < front.len() && front[j] == before[i][k];
                assert(s[j] == all[i][k]);
            } else {
                assert(all[i] == before[i].push(s.last()));
                assert(s[s.len() - 1] == all[i][k]);
            }
        }
    }
}

/// Text without the separator is one piece.
pub proof fn lemma_pieces_single(s: Seq<char>, separator: char)
    requires
        !has_char(s, separator),
    ensures
        pieces(s, separator) == seq![s],
    decreases s.len(),
{
    if s.len() == 0 {
        assert(s =~= Seq::empty());
    } else {
        assert forall|k: int| 0 <= k < s.drop_last().len() implies s.drop_last()[k]
            != separator by {
            assert(s[k] != separator);
        }
        lemma_pieces_single(s.drop_last(), separator);
        assert(s.last() != separator);
        assert(s.drop_last().push(s.last()) =~= s);
        assert(pieces(s, separator) =~= seq![s]);
    }
}

/// The pieces of two texts with a separator between them are those of the one and then
/// those of the other.
pub proof fn lemma_pieces_joined(a: Seq<char>, separator: char, b: Seq<char>)
    ensures
        pieces(a + seq![separator] + b, separator) == pieces(a, separator) + pieces(b, separator),
    decreases b.len(),
{
    let whole = a + seq![separator] + b;
    if b.len() == 0 {
        assert(whole.drop_last() =~= a);
        assert(whole.last() == separator);
        assert(pieces(whole, separator) =~= pieces(a, separator) + pieces(b, separator));
    } else {
        lemma_pieces_joined(a, separator, b.drop_last());
        lemma_pieces_nonempty(b.drop_last(), separator);
        assert(whole.drop_last() =~= a + seq![separator] + b.drop_last());
        assert(whole.last() == b.last());
        assert(pieces(whole, separator) =~= pieces(a, separator) + pieces(b, separator));
    }
}

/// The pieces of `s` between the separators.
pub fn split_on(s: &[char], separator: char) -> (r: Vec<Vec<char>>)
    ensures
        r@.map_values(|v: Vec<char>| v@) == pieces(s@, separator),
{
    let ghost shown = |v: Vec<char>| v@;
    let mut done: Vec<Vec<char>> = Vec::new();
    let mut current: Vec<char> = Vec::new();
    for i in 0..s.len()
        invariant
            shown == (|v: Vec<char>| v@),
            pieces(s@.take(i as int), separator) == done@.map_values(shown).push(current@),
    {
        proof {
            assert(s@.take(i + 1).drop_last() =~= s@.take(i as int));
        }
        if s[i] == separator {
            let ghost before = done@;
            let ghost piece = current@;
            done.push(current);
            current = Vec::new();
            proof {
                assert(done@.map_values(shown) =~= before.map_values(shown).push(piece));
            }
        } else {
            let ghost piece = current@;
            current.push(s[i]);
            proof {
                let p = pieces(s@.take(i as int), separator);
                assert(p.drop_last() =~= done@.map_values(shown));
                assert(p.last() == piece);
            }
        }
    }
    proof {
        assert(s@.take(s@.len() as int) =~= s@);
    }
    let ghost before = done@;
    let ghost piece = current@;
    done.push(current);
    proof {
        assert(done@.map_values(shown) =~= before.map_values(shown).push(piece));
    }
    done
}

// ---------------------------------------------------------------------------
// Order
// ---------------------------------------------------------------------------
/// `a` comes before `b`, or is `b`, in the order of their characters. This is also the
/// order of their UTF-8 bytes.
pub open spec fn text_le(a: Seq<char>, b: Seq<char>) -> bool
    decreases a.len(),
{
    if a.len() == 0 {
        true
    } else if b.len() == 0 {
        false
    } else if a[0] == b[0] {
        text_le(a.skip(1), b.skip(1))
    } else {
        a[0] < b[0]
    }
}

/// The order of texts is total.
pub proof fn lemma_text_total(a: Seq<char>, b: Seq<char>)
    ensures
        text_le(a, b) || text_le(b, a),
    decreases a.len(),
{
    if a.len() > 0 && b.len() > 0 && a[0] == b[0] {
        lemma_text_total(a.skip(1), b.skip(1));
    }
}

/// Every text comes before, or is, itself.
pub proof fn lemma_text_reflexive(a: Seq<char>)
    ensures
        text_le(a, a),
{
    lemma_text_total(a, a);
}

/// Two texts that each come before the other are the same.
pub proof fn lemma_text_antisymmetric(a: Seq<char>, b: Seq<char>)
    requires
        text_le(a, b),
        text_le(b, a),
    ensures
        a == b,
    decreases a.len(),
{
    if a.len() > 0 && b.len() > 0 {
        lemma_text_antisymmetric(a.skip(1), b.skip(1));
        assert(a =~= seq![a[0]] + a.skip(1));
        assert(b =~= seq![b[0]] + b.skip(1));
    } else {
        assert(a =~= b);
    }
}

/// The order of texts is transitive.
pub proof fn lemma_text_transitive(a: Seq<char>, b: Seq<char>, c: Seq<char>)
    requires
        text_le(a, b),
        text_le(b, c),
    ensures
        text_le(a, c),
    decreases a.len(),
{
    if a.len() > 0 && b.len() > 0 && c.len() > 0 && a[0] == b[0] && b[0] == c[0] {
        lemma_text_transitive(a.skip(1), b.skip(1), c.skip(1));
    }
}

/// Whether `x` comes before `y`, or is `y`.
pub fn chars_not_after(x: &[char], y: &[char]) -> (r: bool)
    ensures
        r == text_le(x@, y@),
{
    let mut i: usize = 0;
    proof {
        assert(x@.skip(0) =~= x@);
        assert(y@.skip(0) =~= y@);
    }
    while i < x.len()
        invariant
            i <= x@.len(),
            i <= y@.len(),
            text_le(x@.skip(i as int), y@.skip(i as int)) == text_le(x@, y@),
        decreases x@.len() - i,
    {
        if i == y.len() {
            return false;
        }
        if x[i] != y[i] {
            return x[i] < y[i];
        }
        proof {
            assert(x@.skip(i as int).skip(1) =~= x@.skip(i + 1));
            assert(y@.skip(i as int).skip(1) =~= y@.skip(i + 1));
        }
        i += 1;
    }
    true
}

/// Whether `a` comes before `b`, or is `b`.
pub fn text_not_after(a: &str, b: &str) -> (r: bool)
    ensures
        r == text_le(a@, b@),
{
    chars_not_after(chars_of(a).as_slice(), chars_of(b).as_slice())
}

// ---------------------------------------------------------------------------
// Laws
// ---------------------------------------------------------------------------
/// Where there is nothing to replace, the text stays as it is.
pub proof fn law_replace_absent(s: Seq<char>, from: Seq<char>, to: Seq<char>)
    requires
        !occurs(s, from),
    ensures
        replace_all(s, from, to) == s,
{
    lemma_find_none(s, from, 0);
}

/// Where there is one thing to replace, it is replaced, and the text around it stays.
pub proof fn law_replace_once(a: Seq<char>, from: Seq<char>, b: Seq<char>, to: Seq<char>)
    requires
        from.len() > 0,
        find(a + from + b, from, 0) == Some(a.len() as int),
        !occurs(b, from),
    ensures
        replace_all(a + from + b, from, to) == a + to + b,
{
    let s = a + from + b;
    assert(s.take(a.len() as int) =~= a);
    assert(s.skip((a.len() + from.len()) as int) =~= b);
    law_replace_absent(b, from, to);
}

/// Texts are ordered by their code points: the first position `k` at which two texts differ
/// decides, and a text comes before any longer one that starts with it.
pub proof fn law_order_by_code_points(a: Seq<char>, b: Seq<char>, k: int)
    requires
        0 <= k <= a.len(),
        k <= b.len(),
        forall|i: int| 0 <= i < k ==> a[i] == b[i],
        k < a.len() && k < b.len() ==> a[k] != b[k],
    ensures
        k == a.len() ==> text_le(a, b),
        k == b.len() && k < a.len() ==> !text_le(a, b),
        k < a.len() && k < b.len() ==> text_le(a, b) == ((a[k] as int) < (b[k] as int)),
    decreases k,
{
    if k > 0 {
        let x = a.skip(1);
        let y = b.skip(1);
        assert(a[0] == b[0]);
        assert forall|i: int| 0 <= i < k - 1 implies x[i] == y[i] by {
            assert(x[i] == a[i + 1] && y[i] == b[i + 1]);
        }
        law_order_by_code_points(x, y, k - 1);
    }
}

/// Searching finds the first position at which the characters of the needle stand in a row, and
/// nothing exactly where there is no such position.
pub proof fn law_find_is_first(hay: Seq<char>, needle: Seq<char>, from: int)
    requires
        0 <= from,
    ensures
        match find(hay, needle, from) {
            Some(i) => {
                &&& from <= i <= hay.len() - needle.len()
                &&& hay.subrange(i, i + needle.len()) == needle
                &&& forall|j: int|
                    from <= j < i ==> #[trigger] hay.subrange(j, j + needle.len()) != needle
            },
            None => forall|j: int|
                from <= j <= hay.len() - needle.len() ==> #[trigger] hay.subrange(
                    j,
                    j + needle.len(),
                ) != needle,
        },
{
    lemma_find_none(hay, needle, from);
    if let Some(i) = find(hay, needle, from) {
        assert(is_first(hay, needle, from, i));
        assert forall|j: int| from <= j < i implies #[trigger] hay.subrange(j, j + needle.len())
            != needle by {
            assert(!occurs_at(hay, needle, j));
        }
    } else {
        assert forall|j: int| from <= j <= hay.len() - needle.len() implies #[trigger] hay.subrange(
            j,
            j + needle.len(),
        ) != needle by {
            assert(!occurs_at(hay, needle, j));
        }
    }
}

/// Replacing goes from the left, and what was put in is not searched again: a text that starts
/// with what is replaced starts with what it is replaced by, and then comes what the rest gives.
pub proof fn law_replace_front(rest: Seq<char>, from: Seq<char>, to: Seq<char>)
    requires
        from.len() > 0,
    ensures
        replace_all(from + rest, from, to) == to + replace_all(rest, from, to),
{
    let s = from + rest;
    assert(s.subrange(0, from.len() as int) =~= from);
    assert(is_first(s, from, 0, 0));
    lemma_find_is(s, from, 0, 0);
    assert(s.take(0) =~= Seq::<char>::empty());
    assert(s.skip(from.len() as int) =~= rest);
    assert(replace_all(s, from, to) =~= to + replace_all(rest, from, to));
}

/// Text stays as long as nothing starts in it that is replaced.
pub proof fn law_replace_behind(x: Seq<char>, rest: Seq<char>, from: Seq<char>, to: Seq<char>)
    requires
        from.len() > 0,
        forall|q: int| 0 <= q < x.len() ==> !(#[trigger] occurs_at(x + rest, from, q)),
    ensures
        replace_all(x + rest, from, to) == x + replace_all(rest, from, to),
{
    let s = x + rest;
    let n = x.len() as int;
    assert(s.skip(n) =~= rest);
    lemma_find_skip(s, from, n);
    match find(s, from, n) {
        Some(i) => {
            assert(is_first(s, from, n, i));
            assert forall|j: int| 0 <= j < i implies !occurs_at(s, from, j) by {
                if j >= n {
                    assert(!occurs_at(s, from, j));
                }
            }
            lemma_find_is(s, from, 0, i);
            assert(s.take(i) =~= x + rest.take(i - n));
            assert(s.skip(i + from.len()) =~= rest.skip(i - n + from.len()));
            assert(replace_all(s, from, to) =~= x + replace_all(rest, from, to));
        },
        None => {
            lemma_find_none(s, from, n);
            assert forall|j: int| 0 <= j implies !occurs_at(s, from, j) by {
                if j >= n {
                    assert(!occurs_at(s, from, j));
                }
            }
            lemma_find_none(s, from, 0);
        },
    }
}

/// Splitting: text without the separator is one piece, and a separator ends one piece and starts
/// the next.
pub proof fn law_split(a: Seq<char>, separator: char, b: Seq<char>)
    requires
        forall|i: int| 0 <= i < a.len() ==> a[i] != separator,
    ensures
        pieces(a, separator) == seq![a],
        pieces(a + seq![separator] + b, separator) == seq![a] + pieces(b, separator),
{
    lemma_pieces_single(a, separator);
    lemma_pieces_joined(a, separator, b);
}

/// Each string stands for its characters, in its place.
pub proof fn law_texts_of_strings(strings: Seq<String>, i: int)
    ensures
        texts(strings).len() == strings.len(),
        0 <= i < strings.len() ==> texts(strings)[i] == strings[i]@,
{
}

} // verus!
