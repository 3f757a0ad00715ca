//! Resource bundles: `.properties` files of `key=value` lines.
use vstd::prelude::*;

use crate::text::{chars_of, is_space, is_space_char, starts_with, trim_start};

verus! {

/// The lines of `s[start..]` as `str::lines` gives them, where the current
/// line began at `start` and the scan is at `i`: a line ends at `\n`, which
/// is dropped together with a `\r` just before it; a last line without a
/// final `\n` is kept whole when it is not empty.
pub open spec fn lines_from(s: Seq<char>, start: int, i: int) -> Seq<Seq<char>>
    decreases s.len() - i,
{
    if i < start || i >= s.len() {
        if 0 <= start < s.len() {
            seq![s.subrange(start, s.len() as int)]
        } else {
            Seq::empty()
        }
    } else if s[i] == '\n' {
        let piece = s.subrange(start, i);
        let line = if piece.len() > 0 && piece.last() == '\r' {
            piece.drop_last()
        } else {
            piece
        };
        seq![line] + lines_from(s, i + 1, i + 1)
    } else {
        lines_from(s, start, i + 1)
    }
}

/// `str::lines`.
pub open spec fn lines(s: Seq<char>) -> Seq<Seq<char>> {
    lines_from(s, 0, 0)
}

/// `line` assigns `key`: after leading whitespace it starts with `key`, then
/// optional whitespace and `=`.
pub open spec fn assigns_key(line: Seq<char>, key: Seq<char>) -> bool {
    let rest = trim_start(line);
    &&& starts_with(rest, key)
    &&& starts_with(trim_start(rest.skip(key.len() as int)), seq!['='])
}

/// The first index at `i` or later of a line that defines `key`.
pub open spec fn first_defining(ls: Seq<Seq<char>>, key: Seq<char>, i: int) -> Option<int>
    decreases ls.len() - i,
{
    if i < 0 || i >= ls.len() {
        None
    } else if assigns_key(ls[i], key) {
        Some(i)
    } else {
        first_defining(ls, key, i + 1)
    }
}

/// The zero-based number of the first line of `contents` that defines
/// `key`, as a `u32`.
pub open spec fn key_line(contents: Seq<char>, key: Seq<char>) -> Option<u32> {
    match first_defining(lines(contents), key, 0) {
        Some(k) => Some(k as u32),
        None => None,
    }
}

proof fn lemma_trim_start_window(chars: Seq<char>, lo: int, t: int, hi: int)
    requires
        0 <= lo <= t <= hi <= chars.len(),
        forall|k: int| lo <= k < t ==> is_space(#[trigger] chars[k]),
        t == hi || !is_space(chars[t]),
    ensures
        trim_start(chars.subrange(lo, hi)) == chars.subrange(t, hi),
    decreases t - lo,
{
    if lo < t {
        assert(chars.subrange(lo, hi).drop_first() =~= chars.subrange(lo + 1, hi));
        lemma_trim_start_window(chars, lo + 1, t, hi);
    } else if t < hi {
        assert(chars.subrange(lo, hi)[0] == chars[t]);
    }
}

/// The index of the first character of `chars[lo..hi]` that is not
/// whitespace, or `hi`.
fn skip_spaces(chars: &[char], lo: usize, hi: usize) -> (t: usize)
    requires
        lo <= hi <= chars@.len(),
    ensures
        lo <= t <= hi,
        trim_start(chars@.subrange(lo as int, hi as int)) == chars@.subrange(t as int, hi as int),
{
    let mut t = lo;
    while t < hi && is_space_char(chars[t])
        invariant
            lo <= t <= hi <= chars@.len(),
            forall|k: int| lo <= k < t ==> is_space(#[trigger] chars@[k]),
        decreases hi - t,
    {
        t = t + 1;
    }
    proof {
        lemma_trim_start_window(chars@, lo as int, t as int, hi as int);
    }
    t
}

/// Whether `chars[lo..hi]` defines the key `key`.
fn defines_key_in(chars: &[char], lo: usize, hi: usize, key: &[char]) -> (b: bool)
    requires
        lo <= hi <= chars@.len(),
    ensures
        b == assigns_key(chars@.subrange(lo as int, hi as int), key@),
{
    let ghost line = chars@.subrange(lo as int, hi as int);
    let t = skip_spaces(chars, lo, hi);
    let ghost rest = chars@.subrange(t as int, hi as int);
    if key.len() > hi - t {
        return false;
    }
    let mut i: usize = 0;
    while i < key.len()
        invariant
            t + key@.len() <= hi <= chars@.len(),
            i <= key@.len(),
            rest == chars@.subrange(t as int, hi as int),
            lo <= t,
            trim_start(chars@.subrange(lo as int, hi as int)) == rest,
            forall|k: int| 0 <= k < i ==> chars@[t + k] == key@[k],
        decreases key@.len() - i,
    {
        if chars[t + i] != key[i] {
            assert(rest.take(key@.len() as int)[i as int] != key@[i as int]);
            return false;
        }
        i = i + 1;
    }
    assert(rest.take(key@.len() as int) =~= key@);
    let after = t + key.len();
    assert(rest.skip(key@.len() as int) =~= chars@.subrange(after as int, hi as int));
    let u = skip_spaces(chars, after, hi);
    let found = u < hi && chars[u] == '=';
    proof {
        let tail = chars@.subrange(u as int, hi as int);
        if u < hi {
            assert(tail[0] == chars@[u as int]);
            if chars@[u as int] == '=' {
                assert(tail.take(1) =~= seq!['=']);
            } else {
                assert(tail.take(1)[0] != seq!['='][0]);
            }
        }
    }
    found
}

/// Whether `line` defines `key`: `key` after leading whitespace, then `=`
/// after optional whitespace, so `label.a.bc=` does not define `label.a.b`.
pub fn defines_key(line: &str, key: &str) -> (b: bool)
    ensures
        b == assigns_key(line@, key@),
{
    let chars = chars_of(line);
    let key_chars = chars_of(key);
    assert(chars@.subrange(0, chars@.len() as int) =~= chars@);
    defines_key_in(chars.as_slice(), 0, chars.len(), key_chars.as_slice())
}

proof fn lemma_trim_start_head(s: Seq<char>)
    ensures
        trim_start(s).len() > 0 ==> s.len() > 0 && (is_space(s[0]) || trim_start(s)[0] == s[0]),
    decreases s.len(),
{
}

/// A key is matched whole: where a line defines `key`, what follows the key
/// is whitespace or the `=`, so `label.a.bc=` does not define `label.a.b`.
pub proof fn law_whole_key(line: Seq<char>, key: Seq<char>)
    requires
        assigns_key(line, key),
    ensures
        ({
            let rest = trim_start(line);
            rest.len() > key.len() && (rest[key.len() as int] == '=' || is_space(
                rest[key.len() as int],
            ))
        }),
{
    let rest = trim_start(line);
    let tail = rest.skip(key.len() as int);
    assert(trim_start(tail).take(1) == seq!['=']);
    assert(trim_start(tail).take(1)[0] == trim_start(tail)[0]);
    assert(trim_start(tail)[0] == '=');
    lemma_trim_start_head(tail);
    assert(tail[0] == rest[key.len() as int]);
}

proof fn lemma_first_defining_is_first(ls: Seq<Seq<char>>, key: Seq<char>, i: int)
    requires
        0 <= i,
    ensures
        match first_defining(ls, key, i) {
            Some(k) => {
                &&& i <= k < ls.len()
                &&& assigns_key(ls[k], key)
                &&& forall|j: int| i <= j < k ==> !assigns_key(#[trigger] ls[j], key)
            },
            None => forall|j: int| i <= j < ls.len() ==> !assigns_key(#[trigger] ls[j], key),
        },
    decreases ls.len() - i,
{
    if i < ls.len() && !assigns_key(ls[i], key) {
        lemma_first_defining_is_first(ls, key, i + 1);
    }
}

/// The line a key is found on is counted as `str::lines` counts, blank
/// lines included: it is the first line of `contents` that assigns `key`,
/// and there is none exactly when no line assigns it.
pub proof fn law_key_line_is_first_assigning_line(contents: Seq<char>, key: Seq<char>)
    requires
        lines(contents).len() <= u32::MAX as int,
    ensures
        key_line(contents, key) matches Some(n) ==> {
            &&& (n as int) < lines(contents).len()
            &&& assigns_key(lines(contents)[n as int], key)
            &&& forall|j: int| 0 <= j < n ==> !assigns_key(#[trigger] lines(contents)[j], key)
        },
        key_line(contents, key) is None <==> forall|j: int|
            0 <= j < lines(contents).len() ==> !assigns_key(#[trigger] lines(contents)[j], key),
{
    let ls = lines(contents);
    lemma_first_defining_is_first(ls, key, 0);
    match first_defining(ls, key, 0) {
        Some(k) => {
            assert(k as u32 as int == k);
            assert(!(forall|j: int| 0 <= j < ls.len() ==> !assigns_key(#[trigger] ls[j], key)));
        },
        None => {},
    }
}

proof fn lemma_first_defining(ls: Seq<Seq<char>>, key: Seq<char>, i: int, k: int)
    requires
        0 <= i <= k < ls.len(),
        assigns_key(ls[k], key),
        forall|j: int| i <= j < k ==> !assigns_key(#[trigger] ls[j], key),
    ensures
        first_defining(ls, key, i) == Some(k),
    decreases k - i,
{
    if i < k {
        lemma_first_defining(ls, key, i + 1, k);
    }
}

proof fn lemma_none_defining(ls: Seq<Seq<char>>, key: Seq<char>, i: int)
    requires
        0 <= i,
        forall|j: int| i <= j < ls.len() ==> !assigns_key(#[trigger] ls[j], key),
    ensures
        first_defining(ls, key, i) is None,
    decreases ls.len() - i,
{
    if i < ls.len() {
        lemma_none_defining(ls, key, i + 1);
    }
}

/// The zero-based number of the first line of `contents` that defines `key`.
pub fn line_of_key(contents: &str, key: &str) -> (r: Option<u32>)
    ensures
        r == key_line(contents@, key@),
{
    let s = chars_of(contents);
    let key_chars = chars_of(key);
    let ghost all = lines(s@);
    let ghost mut done: Seq<Seq<char>> = Seq::empty();
    let mut k: usize = 0;
    let mut start: usize = 0;
    let mut i: usize = 0;
    while i < s.len()
        invariant
            start <= i <= s@.len(),
            s@ == contents@,
            key_chars@ == key@,
            all == lines(s@),
            all == done + lines_from(s@, start as int, i as int),
            done.len() == k,
            k <= start,
            forall|j: int| 0 <= j < k ==> !assigns_key(#[trigger] done[j], key@),
        decreases s@.len() - i,
    {
        if s[i] == '\n' {
            let mut end = i;
            if end > start && s[end - 1] == '\r' {
                end = end - 1;
            }
            let ghost line = s@.subrange(start as int, end as int);
            assert(line == (if s@.subrange(start as int, i as int).len() > 0 && s@.subrange(
                start as int,
                i as int,
            ).last() == '\r' {
                s@.subrange(start as int, i as int).drop_last()
            } else {
                s@.subrange(start as int, i as int)
            }));
            assert(lines_from(s@, start as int, i as int) == seq![line] + lines_from(
                s@,
                i + 1,
                i + 1,
            ));
            if defines_key_in(s.as_slice(), start, end, key_chars.as_slice()) {
                proof {
                    assert(all[k as int] == line);
                    assert forall|j: int| 0 <= j < k implies !assigns_key(#[trigger] all[j], key@) by {
                        assert(all[j] == done[j]);
                    }
                    lemma_first_defining(all, key@, 0, k as int);
                }
                return Some(k as u32);
            }
            proof {
                done = done.push(line);
                assert(all =~= done + lines_from(s@, i + 1, i + 1));
            }
            k = k + 1;
            start = i + 1;
        }
        i = i + 1;
    }
    if start < s.len() {
        let ghost line = s@.subrange(start as int, s@.len() as int);
        assert(all =~= done + seq![line]);
        if defines_key_in(s.as_slice(), start, s.len(), key_chars.as_slice()) {
            proof {
                assert forall|j: int| 0 <= j < k implies !assigns_key(#[trigger] all[j], key@) by {
                    assert(all[j] == done[j]);
                }
                lemma_first_defining(all, key@, 0, k as int);
            }
            return Some(k as u32);
        }
        proof {
            assert forall|j: int| 0 <= j < all.len() implies !assigns_key(#[trigger] all[j], key@) by {
                if j < k {
                    assert(all[j] == done[j]);
                }
            }
            lemma_none_defining(all, key@, 0);
        }
    } else {
        proof {
            assert(all =~= done);
            assert forall|j: int| 0 <= j < all.len() implies !assigns_key(#[trigger] all[j], key@) by {
                assert(all[j] == done[j]);
            }
            lemma_none_defining(all, key@, 0);
        }
    }
    None
}

} // verus!
