//! The order of text (`str`'s `Ord`) and stable sorting by a text key.
use vstd::prelude::*;

use crate::text::chars_of;

verus! {

/// `a` sorts strictly before `b`: the order of `str`, which compares the
/// characters' code points from the left and puts a prefix first.
pub open spec fn text_lt(a: Seq<char>, b: Seq<char>) -> bool
    decreases a.len(),
{
    if a.len() == 0 {
        b.len() > 0
    } else if b.len() == 0 {
        false
    } else if a[0] != b[0] {
        b[0] > a[0]
    } else {
        text_lt(a.drop_first(), b.drop_first())
    }
}

pub open spec fn text_le(a: Seq<char>, b: Seq<char>) -> bool {
    a == b || text_lt(a, b)
}

/// Whether `a` sorts strictly before `b`.
pub fn text_less(a: &str, b: &str) -> (r: bool)
    ensures
        r == text_lt(a@, b@),
{
    let x = chars_of(a);
    let y = chars_of(b);
    assert(x@.skip(0) =~= x@);
    assert(y@.skip(0) =~= y@);
    let mut i: usize = 0;
    while i < x.len() && i < y.len() && x[i] == y[i]
        invariant
            i <= x@.len(),
            i <= y@.len(),
            text_lt(a@, b@) == text_lt(x@.skip(i as int), y@.skip(i as int)),
            x@ == a@,
            y@ == b@,
        decreases x@.len() - i,
    {
        assert(x@.skip(i as int).drop_first() =~= x@.skip(i + 1));
        assert(y@.skip(i as int).drop_first() =~= y@.skip(i + 1));
        i = i + 1;
    }
    if i == x.len() {
        assert(x@.skip(i as int).len() == 0);
        i < y.len()
    } else if i == y.len() {
        false
    } else {
        assert(x@.skip(i as int)[0] == x@[i as int]);
        assert(y@.skip(i as int)[0] == y@[i as int]);
        y[i] > x[i]
    }
}

pub proof fn lemma_text_lt_irreflexive(a: Seq<char>)
    ensures
        !text_lt(a, a),
    decreases a.len(),
{
    if a.len() > 0 {
        lemma_text_lt_irreflexive(a.drop_first());
    }
}

pub proof fn lemma_text_lt_total(a: Seq<char>, b: Seq<char>)
    ensures
        a == b || text_lt(a, b) || text_lt(b, a),
    decreases a.len(),
{
    if a.len() > 0 && b.len() > 0 && a[0] == b[0] {
        lemma_text_lt_total(a.drop_first(), b.drop_first());
        if a.drop_first() == b.drop_first() {
            assert(a =~= seq![a[0]] + a.drop_first());
            assert(b =~= seq![b[0]] + b.drop_first());
        }
    } else if a.len() == 0 && b.len() == 0 {
        assert(a =~= b);
    }
}

pub proof fn lemma_text_lt_transitive(a: Seq<char>, b: Seq<char>, c: Seq<char>)
    requires
        text_lt(a, b),
        text_lt(b, c),
    ensures
        text_lt(a, c),
    decreases a.len(),
{
    if a.len() > 0 && b.len() > 0 && c.len() > 0 && a[0] == b[0] && b[0] == c[0] {
        lemma_text_lt_transitive(a.drop_first(), b.drop_first(), c.drop_first());
    }
}

pub proof fn lemma_text_le_antisymmetric(a: Seq<char>, b: Seq<char>)
    requires
        text_le(a, b),
        text_le(b, a),
    ensures
        a == b,
{
    if a != b {
        lemma_text_lt_transitive(a, b, a);
        lemma_text_lt_irreflexive(a);
    }
}

pub proof fn lemma_text_le_transitive(a: Seq<char>, b: Seq<char>, c: Seq<char>)
    requires
        text_le(a, b),
        text_le(b, c),
    ensures
        text_le(a, c),
{
    if a != b && b != c {
        lemma_text_lt_transitive(a, b, c);
    }
}

/// The keys of `s` never decrease.
pub open spec fn keyed_sorted<T>(s: Seq<T>, key: spec_fn(T) -> Seq<char>) -> bool {
    forall|i: int, j: int|
        0 <= i < j < s.len() ==> text_le(key(#[trigger] s[i]), key(#[trigger] s[j]))
}

pub open spec fn has_key<T>(key: spec_fn(T) -> Seq<char>, n: Seq<char>) -> spec_fn(T) -> bool {
    |x: T| key(x) == n
}

/// `t` is `s` sorted by `key`, stably: its keys never decrease, and the
/// items of each key come in the order they have in `s`.
pub open spec fn is_sort_of<T>(t: Seq<T>, s: Seq<T>, key: spec_fn(T) -> Seq<char>) -> bool {
    &&& keyed_sorted(t, key)
    &&& forall|n: Seq<char>| #[trigger] t.filter(has_key(key, n)) == s.filter(has_key(key, n))
}

/// `s` sorted by `key`, stably.
pub open spec fn sorted_by_key<T>(s: Seq<T>, key: spec_fn(T) -> Seq<char>) -> Seq<T> {
    choose|t: Seq<T>| is_sort_of(t, s, key)
}

proof fn lemma_empty_filter<T>(p: spec_fn(T) -> bool)
    ensures
        Seq::<T>::empty().filter(p) == Seq::<T>::empty(),
{
    reveal(Seq::filter);
}

/// Two sequences sorted by the same key with the same items of each key in
/// the same order are the same sequence.
pub proof fn lemma_sorted_same_keys_equal<T>(a: Seq<T>, b: Seq<T>, key: spec_fn(T) -> Seq<char>)
    requires
        keyed_sorted(a, key),
        keyed_sorted(b, key),
        forall|n: Seq<char>| #[trigger] a.filter(has_key(key, n)) == b.filter(has_key(key, n)),
    ensures
        a == b,
    decreases a.len() + b.len(),
{
    broadcast use Seq::lemma_filter_prepend;

    lemma_empty_filter(has_key(key, Seq::<char>::empty()));
    if a.len() == 0 || b.len() == 0 {
        if b.len() > 0 {
            let n = key(b[0]);
            assert(b =~= seq![b[0]] + b.drop_first());
            assert(b.filter(has_key(key, n)).len() > 0);
            lemma_empty_filter(has_key(key, n));
            assert(a =~= Seq::<T>::empty());
        } else if a.len() > 0 {
            let n = key(a[0]);
            assert(a =~= seq![a[0]] + a.drop_first());
            assert(a.filter(has_key(key, n)).len() > 0);
            lemma_empty_filter(has_key(key, n));
            assert(b =~= Seq::<T>::empty());
        } else {
            assert(a =~= b);
        }
    } else {
        let a0 = a[0];
        let b0 = b[0];
        let ra = a.drop_first();
        let rb = b.drop_first();
        assert(a =~= seq![a0] + ra);
        assert(b =~= seq![b0] + rb);
        // The first key of each is at most every key of the other.
        lemma_first_key_least(a, b, key);
        lemma_first_key_least(b, a, key);
        lemma_text_le_antisymmetric(key(a0), key(b0));
        let n0 = key(a0);
        assert(a.filter(has_key(key, n0)) == seq![a0] + ra.filter(has_key(key, n0)));
        assert(b.filter(has_key(key, n0)) == seq![b0] + rb.filter(has_key(key, n0)));
        assert(a.filter(has_key(key, n0))[0] == a0);
        assert(b.filter(has_key(key, n0))[0] == b0);
        assert forall|n: Seq<char>| #[trigger] ra.filter(has_key(key, n)) == rb.filter(
            has_key(key, n),
        ) by {
            assert(a.filter(has_key(key, n)) == b.filter(has_key(key, n)));
            if n == n0 {
                assert(ra.filter(has_key(key, n)) =~= a.filter(has_key(key, n)).drop_first());
                assert(rb.filter(has_key(key, n)) =~= b.filter(has_key(key, n)).drop_first());
            } else {
                assert(ra.filter(has_key(key, n)) =~= a.filter(has_key(key, n)));
                assert(rb.filter(has_key(key, n)) =~= b.filter(has_key(key, n)));
            }
        }
        assert forall|i: int, j: int| 0 <= i < j < ra.len() implies text_le(
            key(#[trigger] ra[i]),
            key(#[trigger] ra[j]),
        ) by {
            assert(text_le(key(a[i + 1]), key(a[j + 1])));
        }
        assert forall|i: int, j: int| 0 <= i < j < rb.len() implies text_le(
            key(#[trigger] rb[i]),
            key(#[trigger] rb[j]),
        ) by {
            assert(text_le(key(b[i + 1]), key(b[j + 1])));
        }
        lemma_sorted_same_keys_equal(ra, rb, key);
    }
}

/// In a sorted `a` whose items of each key are those of `b`, the first key is
/// at most the first key of `b`.
proof fn lemma_first_key_least<T>(a: Seq<T>, b: Seq<T>, key: spec_fn(T) -> Seq<char>)
    requires
        keyed_sorted(a, key),
        a.len() > 0,
        b.len() > 0,
        forall|n: Seq<char>| #[trigger] a.filter(has_key(key, n)) == b.filter(has_key(key, n)),
    ensures
        text_le(key(a[0]), key(b[0])),
{
    broadcast use vstd::seq_lib::group_filter_ensures;

    let n = key(b[0]);
    assert(has_key(key, n)(b[0]));
    assert(b.filter(has_key(key, n)).contains(b[0]));
    assert(a.filter(has_key(key, n)) == b.filter(has_key(key, n)));
    let m = choose|m: int| 0 <= m < a.filter(has_key(key, n)).len() && a.filter(has_key(key, n))[m]
        == b[0];
    assert(has_key(key, n)(a.filter(has_key(key, n))[m]));
    assert(a.filter(has_key(key, n)).contains(b[0]));
    lemma_filter_member(a, has_key(key, n), b[0]);
    let k = choose|k: int| 0 <= k < a.len() && a[k] == b[0];
    if k > 0 {
        assert(text_le(key(a[0]), key(a[k])));
    }
}

proof fn lemma_filter_member<T>(s: Seq<T>, p: spec_fn(T) -> bool, x: T)
    requires
        s.filter(p).contains(x),
    ensures
        s.contains(x),
    decreases s.len(),
{
    reveal(Seq::filter);
    if s.len() == 0 {
    } else {
        let sub = s.drop_last().filter(p);
        if p(s.last()) && x == s.last() {
            assert(s[s.len() - 1] == x);
        } else {
            assert(sub.contains(x)) by {
                let k = choose|k: int| 0 <= k < s.filter(p).len() && s.filter(p)[k] == x;
                if p(s.last()) {
                    assert(s.filter(p) == sub.push(s.last()));
                    assert(k < sub.len());
                    assert(sub[k] == x);
                } else {
                    assert(sub[k] == x);
                }
            }
            lemma_filter_member(s.drop_last(), p, x);
            let k = choose|k: int| 0 <= k < s.drop_last().len() && s.drop_last()[k] == x;
            assert(s[k] == x);
        }
    }
}

/// A stable sort of `s` by `key` exists, and `sorted_by_key` is the only one.
pub proof fn lemma_sort_is_sorted_by_key<T>(t: Seq<T>, s: Seq<T>, key: spec_fn(T) -> Seq<char>)
    requires
        is_sort_of(t, s, key),
    ensures
        sorted_by_key(s, key) == t,
{
    let c = sorted_by_key(s, key);
    assert(is_sort_of(c, s, key));
    assert forall|n: Seq<char>| #[trigger] c.filter(has_key(key, n)) == t.filter(has_key(key, n)) by {
        assert(c.filter(has_key(key, n)) == s.filter(has_key(key, n)));
        assert(t.filter(has_key(key, n)) == s.filter(has_key(key, n)));
    }
    lemma_sorted_same_keys_equal(c, t, key);
}

pub proof fn lemma_sort_of_empty<T>(key: spec_fn(T) -> Seq<char>)
    ensures
        is_sort_of(Seq::<T>::empty(), Seq::<T>::empty(), key),
{
    assert forall|n: Seq<char>| #[trigger] Seq::<T>::empty().filter(has_key(key, n))
        == Seq::<T>::empty().filter(has_key(key, n)) by {}
}

/// Inserting `x` after every item whose key is at most its own, and before
/// the rest, keeps a stable sort stable.
pub proof fn lemma_insert_sorted<T>(
    sorted: Seq<T>,
    x: T,
    p: int,
    s: Seq<T>,
    key: spec_fn(T) -> Seq<char>,
)
    requires
        is_sort_of(sorted, s, key),
        0 <= p <= sorted.len(),
        p > 0 ==> !text_lt(key(x), key(sorted[p - 1])),
        forall|k: int| p <= k < sorted.len() ==> text_lt(key(x), key(#[trigger] sorted[k])),
    ensures
        is_sort_of(sorted.insert(p, x), s.push(x), key),
{
    if p > 0 {
        lemma_text_lt_total(key(x), key(sorted[p - 1]));
    }
    lemma_insert_keeps_order(sorted, x, p, key);
    assert forall|n: Seq<char>| #[trigger] sorted.insert(p, x).filter(has_key(key, n)) == s.push(
        x,
    ).filter(has_key(key, n)) by {
        lemma_insert_keeps_keys(sorted, x, p, s, key, n);
    }
}

proof fn lemma_insert_keeps_order<T>(sorted: Seq<T>, x: T, p: int, key: spec_fn(T) -> Seq<char>)
    requires
        keyed_sorted(sorted, key),
        0 <= p <= sorted.len(),
        p > 0 ==> text_le(key(sorted[p - 1]), key(x)),
        forall|k: int| p <= k < sorted.len() ==> text_lt(key(x), key(#[trigger] sorted[k])),
    ensures
        keyed_sorted(sorted.insert(p, x), key),
{
    let t = sorted.insert(p, x);
    assert forall|i: int, j: int| 0 <= i < j < t.len() implies text_le(
        key(#[trigger] t[i]),
        key(#[trigger] t[j]),
    ) by {
        if i < p && j == p {
            if i < p - 1 {
                assert(text_le(key(sorted[i]), key(sorted[p - 1])));
                lemma_text_le_transitive(key(sorted[i]), key(sorted[p - 1]), key(x));
            }
        } else if i == p && j > p {
            assert(text_lt(key(x), key(sorted[j - 1])));
        } else if i < p && j > p {
            assert(text_le(key(sorted[i]), key(sorted[j - 1])));
        } else if i > p {
            assert(text_le(key(sorted[i - 1]), key(sorted[j - 1])));
        } else {
            assert(text_le(key(sorted[i]), key(sorted[j - 1])));
        }
    }
}

proof fn lemma_singleton_filter<T>(x: T, p: spec_fn(T) -> bool)
    ensures
        seq![x].filter(p) == if p(x) {
            seq![x]
        } else {
            Seq::<T>::empty()
        },
{
    reveal_with_fuel(Seq::filter, 2);
    assert(seq![x].drop_last() =~= Seq::<T>::empty());
}

proof fn lemma_insert_keeps_keys<T>(
    sorted: Seq<T>,
    x: T,
    p: int,
    s: Seq<T>,
    key: spec_fn(T) -> Seq<char>,
    n: Seq<char>,
)
    requires
        sorted.filter(has_key(key, n)) == s.filter(has_key(key, n)),
        0 <= p <= sorted.len(),
        forall|k: int| p <= k < sorted.len() ==> text_lt(key(x), key(#[trigger] sorted[k])),
    ensures
        sorted.insert(p, x).filter(has_key(key, n)) == s.push(x).filter(has_key(key, n)),
{
    broadcast use Seq::filter_distributes_over_add;

    let t = sorted.insert(p, x);
    let head = sorted.take(p);
    let rest = sorted.skip(p);
    assert(t =~= head + seq![x] + rest);
    assert(sorted =~= head + rest);
    s.lemma_filter_push(x, has_key(key, n));
    lemma_singleton_filter(x, has_key(key, n));
    if n == key(x) {
        assert(rest.filter(has_key(key, n)).len() == 0) by {
            assert forall|k: int| 0 <= k < rest.len() implies !#[trigger] has_key(key, n)(
                rest[k],
            ) by {
                assert(text_lt(key(x), key(sorted[p + k])));
                lemma_text_lt_irreflexive(key(x));
            }
            rest.lemma_all_neg_filter_empty(has_key(key, n));
        }
        assert(rest.filter(has_key(key, n)) =~= Seq::<T>::empty());
        assert(t.filter(has_key(key, n)) =~= head.filter(has_key(key, n)) + seq![x]);
        assert(sorted.filter(has_key(key, n)) =~= head.filter(has_key(key, n)));
    } else {
        assert(t.filter(has_key(key, n)) =~= head.filter(has_key(key, n)) + rest.filter(
            has_key(key, n),
        ));
    }
}

/// The first index at `i` or later whose key sorts strictly after `key(x)`,
/// or the length of `t`.
pub open spec fn first_after<T>(t: Seq<T>, x: T, key: spec_fn(T) -> Seq<char>, i: int) -> int
    decreases t.len() - i,
{
    if i < 0 || i >= t.len() {
        t.len() as int
    } else if text_lt(key(x), key(t[i])) {
        i
    } else {
        first_after(t, x, key, i + 1)
    }
}

proof fn lemma_first_after<T>(t: Seq<T>, x: T, key: spec_fn(T) -> Seq<char>, i: int)
    requires
        keyed_sorted(t, key),
        0 <= i <= t.len(),
    ensures
        i <= first_after(t, x, key, i) <= t.len(),
        forall|k: int| i <= k < first_after(t, x, key, i) ==> !text_lt(key(x), key(#[trigger] t[k])),
        forall|k: int|
            first_after(t, x, key, i) <= k < t.len() ==> text_lt(key(x), key(#[trigger] t[k])),
    decreases t.len() - i,
{
    if i < t.len() {
        if text_lt(key(x), key(t[i])) {
            assert forall|k: int| i <= k < t.len() implies text_lt(key(x), key(#[trigger] t[k])) by {
                if k > i {
                    assert(text_le(key(t[i]), key(t[k])));
                    if key(t[i]) != key(t[k]) {
                        lemma_text_lt_transitive(key(x), key(t[i]), key(t[k]));
                    }
                }
            }
        } else {
            lemma_first_after(t, x, key, i + 1);
        }
    }
}

/// Every sequence has a stable sort by any text key.
pub proof fn lemma_sort_exists<T>(s: Seq<T>, key: spec_fn(T) -> Seq<char>) -> (t: Seq<T>)
    ensures
        is_sort_of(t, s, key),
    decreases s.len(),
{
    if s.len() == 0 {
        lemma_sort_of_empty(key);
        assert(s =~= Seq::<T>::empty());
        Seq::empty()
    } else {
        let rest = s.drop_last();
        let x = s.last();
        let t0 = lemma_sort_exists(rest, key);
        let p = first_after(t0, x, key, 0);
        lemma_first_after(t0, x, key, 0);
        lemma_insert_sorted(t0, x, p, rest, key);
        assert(rest.push(x) =~= s);
        t0.insert(p, x)
    }
}

/// `sorted_by_key` is a stable sort.
pub proof fn lemma_sorted_by_key<T>(s: Seq<T>, key: spec_fn(T) -> Seq<char>)
    ensures
        is_sort_of(sorted_by_key(s, key), s, key),
{
    let t = lemma_sort_exists(s, key);
    lemma_sort_is_sorted_by_key(t, s, key);
}

/// The text itself, as a sort key.
pub open spec fn whole_text() -> spec_fn(Seq<char>) -> Seq<char> {
    |s: Seq<char>| s
}

pub open spec fn texts_of(v: Seq<String>) -> Seq<Seq<char>> {
    v.map_values(|s: String| s@)
}

/// `items` in the order of `str`.
pub fn sort_texts(items: Vec<String>) -> (sorted: Vec<String>)
    ensures
        texts_of(sorted@) == sorted_by_key(texts_of(items@), whole_text()),
{
    let ghost input = texts_of(items@);
    let mut sorted: Vec<String> = Vec::new();
    proof {
        lemma_sort_of_empty(whole_text());
        assert(input.take(0) =~= Seq::<Seq<char>>::empty());
        assert(texts_of(sorted@) =~= Seq::<Seq<char>>::empty());
    }
    let mut i: usize = 0;
    while i < items.len()
        invariant
            i <= items@.len(),
            input == texts_of(items@),
            is_sort_of(texts_of(sorted@), input.take(i as int), whole_text()),
        decreases items@.len() - i,
    {
        let item = items[i].clone();
        let ghost x = item@;
        let mut p = sorted.len();
        while p > 0 && text_less(item.as_str(), sorted[p - 1].as_str())
            invariant
                p <= sorted@.len(),
                forall|k: int|
                    p <= k < sorted@.len() ==> text_lt(x, #[trigger] texts_of(sorted@)[k]),
                x == item@,
            decreases p,
        {
            p = p - 1;
        }
        let ghost old_sorted = texts_of(sorted@);
        proof {
            lemma_insert_sorted(old_sorted, x, p as int, input.take(i as int), whole_text());
            assert(input.take(i + 1) =~= input.take(i as int).push(x));
        }
        sorted.insert(p, item);
        assert(texts_of(sorted@) =~= old_sorted.insert(p as int, x));
        i = i + 1;
    }
    assert(input.take(i as int) =~= input);
    proof {
        lemma_sort_is_sorted_by_key(texts_of(sorted@), input, whole_text());
    }
    sorted
}

} // verus!
