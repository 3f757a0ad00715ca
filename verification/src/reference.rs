//! Finding the reference under the cursor in an ISML or JavaScript line.
//!
//! A line is read as a sequence of characters; a string literal is a quote
//! (`'` or `"`), the characters up to the next occurrence of the same quote,
//! and that closing quote.
use vstd::prelude::*;

use crate::text::{
    is_alphanumeric_char, ascii_lower, ascii_lower_char, ascii_lowercase, chars_of, ends_with, ends_with_at,
    is_alphanumeric, string_of, trim_end, trim_end_len,
};

verus! {

#[derive(Debug, PartialEq, Eq)]
pub enum Reference {
    /// `<isinclude template="account/dashboard"/>`
    Template(String),
    /// `require('*/cartridge/scripts/helpers/brandHelper')`
    Module(String),
    /// `Resource.msg('label.profile.firstname', 'account', null)`
    Resource { key: String, bundle: String },
}

/// A [`Reference`] as mathematical text.
pub enum ReferenceView {
    Template(Seq<char>),
    Module(Seq<char>),
    Resource { key: Seq<char>, bundle: Seq<char> },
}

impl View for Reference {
    type V = ReferenceView;

    open spec fn view(&self) -> ReferenceView {
        match self {
            Reference::Template(t) => ReferenceView::Template(t@),
            Reference::Module(m) => ReferenceView::Module(m@),
            Reference::Resource { key, bundle } => ReferenceView::Resource {
                key: key@,
                bundle: bundle@,
            },
        }
    }
}

pub open spec fn option_view(r: Option<Reference>) -> Option<ReferenceView> {
    match r {
        Some(x) => Some(x@),
        None => None,
    }
}

pub open spec fn is_quote(c: char) -> bool {
    c == '\'' || c == '"'
}

/// The index of the first `quote` in `chars[from..hi]`, or `hi` when there is
/// none.
pub open spec fn closing(chars: Seq<char>, quote: char, from: int, hi: int) -> int
    decreases hi - from,
{
    if from >= hi {
        hi
    } else if chars[from] == quote {
        from
    } else {
        closing(chars, quote, from + 1, hi)
    }
}

pub proof fn lemma_closing(chars: Seq<char>, quote: char, from: int, hi: int)
    requires
        from <= hi,
    ensures
        from <= closing(chars, quote, from, hi) <= hi,
        closing(chars, quote, from, hi) < hi ==> chars[closing(chars, quote, from, hi)] == quote,
        forall|k: int| from <= k < closing(chars, quote, from, hi) ==> chars[k] != quote,
    decreases hi - from,
{
    if from < hi && chars[from] != quote {
        lemma_closing(chars, quote, from + 1, hi);
    }
}

/// The literal containing `column`, as the indices of its opening and closing
/// quotes, scanning `chars[lo..hi]` from index `i`. Literals are paired from
/// the left; when the cursor is inside one, a literal nested inside its
/// contents that also holds the cursor is preferred
/// (`value="${require('x')}"`).
pub open spec fn literal_in(chars: Seq<char>, lo: int, hi: int, column: int, i: int) -> Option<
    (int, int),
>
    decreases hi - lo, hi - i,
{
    if i < lo || i >= hi {
        None
    } else if !is_quote(chars[i]) {
        literal_in(chars, lo, hi, column, i + 1)
    } else {
        let end = closing(chars, chars[i], i + 1, hi);
        proof {
            lemma_closing(chars, chars[i], i + 1, hi);
        }
        if end >= hi {
            None
        } else if i + 1 <= column <= end {
            match literal_in(chars, i + 1, end, column, i + 1) {
                Some(nested) => Some(nested),
                None => Some((i, end)),
            }
        } else {
            literal_in(chars, lo, hi, column, end + 1)
        }
    }
}

/// The literal of the whole line that holds `column`.
pub open spec fn literal_at(chars: Seq<char>, column: int) -> Option<(int, int)> {
    literal_in(chars, 0, chars.len() as int, column, 0)
}

/// Where `before` ends with `name(` (optional whitespace around the
/// parenthesis), what precedes `name`: `Some(None)` when nothing does,
/// `Some(Some(c))` when `c` does; `None` when `before` does not end so.
pub open spec fn call_head(before: Seq<char>, name: Seq<char>) -> Option<Option<char>> {
    let trimmed = trim_end(before);
    if trimmed.len() > 0 && trimmed.last() == '(' && ends_with(
        trim_end(trimmed.drop_last()),
        name,
    ) {
        let head = trim_end(trimmed.drop_last());
        let p = head.len() - name.len();
        if p == 0 {
            Some(None)
        } else {
            Some(Some(head[p - 1]))
        }
    } else {
        None
    }
}

/// `before` ends with a call of `name`, where `preceding_alphanumeric` says
/// whether the character before `name`, if any, is alphanumeric: `name` must
/// not be the tail of a longer identifier.
pub open spec fn names_call_given(
    before: Seq<char>,
    name: Seq<char>,
    preceding_alphanumeric: bool,
) -> bool {
    match call_head(before, name) {
        None => false,
        Some(None) => true,
        Some(Some(c)) => !(preceding_alphanumeric || c == '_' || c == '$'),
    }
}

/// Whether the character before the called `name` is alphanumeric.
pub open spec fn preceding_alphanumeric(before: Seq<char>, name: Seq<char>) -> bool {
    match call_head(before, name) {
        Some(Some(c)) => is_alphanumeric_char(c),
        _ => false,
    }
}

/// `before` ends with `name(`, with optional whitespace around the
/// parenthesis, and `name` is not the tail of a longer identifier.
pub open spec fn names_call(before: Seq<char>, name: Seq<char>) -> bool {
    names_call_given(before, name, preceding_alphanumeric(before, name))
}

/// `before` ends with `template =` (any ASCII case, optional whitespace).
pub open spec fn assigns_template(before: Seq<char>) -> bool {
    let trimmed = trim_end(before);
    &&& trimmed.len() > 0
    &&& trimmed.last() == '='
    &&& ends_with(ascii_lowercase(trim_end(trimmed.drop_last())), "template"@)
}

/// `chars[i]` is the `(` of `Resource.msgf(`, `Resource.msg(` or
/// `i18nMessage(` (whitespace allowed before the parenthesis).
pub open spec fn is_opening(chars: Seq<char>, i: int) -> bool {
    &&& 0 <= i < chars.len()
    &&& chars[i] == '('
    &&& {
        let head = trim_end(chars.take(i));
        ||| ends_with(head, "Resource.msgf"@)
        ||| ends_with(head, "Resource.msg"@)
        ||| ends_with(head, "i18nMessage"@)
    }
}

/// The openings at index `i` or later, in increasing order.
pub open spec fn openings_from(chars: Seq<char>, i: int) -> Seq<int>
    decreases chars.len() - i,
{
    if i < 0 || i >= chars.len() {
        Seq::empty()
    } else if is_opening(chars, i) {
        seq![i] + openings_from(chars, i + 1)
    } else {
        openings_from(chars, i + 1)
    }
}

/// The `)` matching the `(` at `open`, scanning from `index` at nesting
/// `depth`; parentheses inside string literals do not count.
pub open spec fn paren_scan(chars: Seq<char>, index: int, depth: int) -> Option<int>
    decreases chars.len() - index,
{
    if index < 0 || index >= chars.len() {
        None
    } else if chars[index] == '(' {
        paren_scan(chars, index + 1, depth + 1)
    } else if chars[index] == ')' {
        if depth - 1 == 0 {
            Some(index)
        } else {
            paren_scan(chars, index + 1, depth - 1)
        }
    } else if is_quote(chars[index]) {
        let end = closing(chars, chars[index], index + 1, chars.len() as int);
        proof {
            lemma_closing(chars, chars[index], index + 1, chars.len() as int);
        }
        if end >= chars.len() {
            None
        } else {
            paren_scan(chars, end + 1, depth)
        }
    } else {
        paren_scan(chars, index + 1, depth)
    }
}

pub open spec fn matching(chars: Seq<char>, open: int) -> Option<int> {
    paren_scan(chars, open, 0)
}

/// The contents of the string literals in `chars[i..hi]`, in order; an
/// unterminated last literal runs to `hi`.
pub open spec fn arguments_in(chars: Seq<char>, i: int, hi: int) -> Seq<Seq<char>>
    decreases hi - i,
{
    if i < 0 || i >= hi {
        Seq::empty()
    } else if is_quote(chars[i]) {
        let end = closing(chars, chars[i], i + 1, hi);
        proof {
            lemma_closing(chars, chars[i], i + 1, hi);
        }
        if end >= hi {
            seq![chars.subrange(i + 1, end)]
        } else {
            seq![chars.subrange(i + 1, end)] + arguments_in(chars, end + 1, hi)
        }
    } else {
        arguments_in(chars, i + 1, hi)
    }
}

/// The first localisation call, among the openings `opens`, whose parentheses
/// enclose `column` and which has at least two string arguments: its first
/// two arguments. An opening whose parenthesis is never closed, met before
/// one is found, ends the search with nothing.
pub open spec fn resource_in(chars: Seq<char>, column: int, opens: Seq<int>) -> Option<
    (Seq<char>, Seq<char>),
>
    decreases opens.len(),
{
    if opens.len() == 0 {
        None
    } else {
        let open = opens[0];
        if column < open {
            resource_in(chars, column, opens.drop_first())
        } else {
            match matching(chars, open) {
                None => None,
                Some(close) => if column > close {
                    resource_in(chars, column, opens.drop_first())
                } else {
                    let args = arguments_in(chars, open + 1, close);
                    if args.len() < 2 {
                        resource_in(chars, column, opens.drop_first())
                    } else {
                        Some((args[0], args[1]))
                    }
                },
            }
        }
    }
}

pub open spec fn resource_at(chars: Seq<char>, column: int) -> Option<(Seq<char>, Seq<char>)> {
    resource_in(chars, column, openings_from(chars, 0))
}

/// The reference under `column` (clamped to the line's length): a
/// localisation call enclosing it, else the literal under it when that
/// literal is the argument of `require(` or the value of a `template`
/// attribute. Nothing when the cursor is on no literal.
pub open spec fn reference_at(line: Seq<char>, column: int) -> Option<ReferenceView> {
    let col = if column < line.len() {
        column
    } else {
        line.len() as int
    };
    match literal_at(line, col) {
        None => None,
        Some((start, end)) => {
            let text = line.subrange(start + 1, end);
            let before = line.take(start);
            match resource_at(line, col) {
                Some((key, bundle)) => Some(ReferenceView::Resource { key, bundle }),
                None => if names_call(before, "require"@) {
                    Some(ReferenceView::Module(text))
                } else if assigns_template(before) {
                    Some(ReferenceView::Template(text))
                } else {
                    None
                },
            }
        }
    }
}

/// The reference the cursor sits on, if any. `column` is a character offset
/// into `line`.
pub fn at_cursor(line: &str, column: usize) -> (r: Option<Reference>)
    ensures
        option_view(r) == reference_at(line@, column as int),
{
    let chars = chars_of(line);
    let column = if column < chars.len() {
        column
    } else {
        chars.len()
    };
    let literal = match string_literal_at(chars.as_slice(), 0, chars.len(), column) {
        Some(literal) => literal,
        None => return None,
    };
    proof {
        lemma_literal_bounds(chars@, 0, chars@.len() as int, column as int, 0);
    }
    if let Some(reference) = resource_call(chars.as_slice(), column) {
        return Some(reference);
    }
    let require = chars_of("require");
    if ends_with_call(chars.as_slice(), literal.start, require.as_slice()) {
        return Some(Reference::Module(string_of(&chars.as_slice()[literal.start + 1..literal.end])));
    }
    if is_template_attribute(chars.as_slice(), literal.start) {
        return Some(
            Reference::Template(string_of(&chars.as_slice()[literal.start + 1..literal.end])),
        );
    }
    None
}

/// The server only ever answers when the cursor is on a string literal: a
/// reference found at `column` (clamped to the line) comes from a literal of
/// the line, between a quote and the next occurrence of the same quote, whose
/// contents hold the cursor; a template or module is that literal's text.
pub proof fn law_answers_only_on_a_literal(line: Seq<char>, column: int)
    requires
        reference_at(line, column) is Some,
    ensures
        ({
            let col = if column < line.len() {
                column
            } else {
                line.len() as int
            };
            exists|s: int, e: int|
                {
                    &&& 0 <= s < e < line.len()
                    &&& is_quote(#[trigger] line[s])
                    &&& #[trigger] line[e] == line[s]
                    &&& forall|k: int| s < k < e ==> line[k] != line[s]
                    &&& s + 1 <= col <= e
                    &&& (reference_at(line, column) matches Some(ReferenceView::Template(t)) ==> t
                        == line.subrange(s + 1, e))
                    &&& (reference_at(line, column) matches Some(ReferenceView::Module(m)) ==> m
                        == line.subrange(s + 1, e))
                }
        }),
{
    let col = if column < line.len() {
        column
    } else {
        line.len() as int
    };
    lemma_literal_bounds(line, 0, line.len() as int, col, 0);
    let (s, e) = literal_at(line, col)->0;
    assert(line[s] == line[s]);
    assert(line[e] == line[s]);
}

proof fn lemma_paren_scan_bounds(chars: Seq<char>, index: int, depth: int)
    ensures
        paren_scan(chars, index, depth) matches Some(close) ==> index <= close < chars.len(),
    decreases chars.len() - index,
{
    if 0 <= index < chars.len() {
        if chars[index] == '(' {
            lemma_paren_scan_bounds(chars, index + 1, depth + 1);
        } else if chars[index] == ')' {
            lemma_paren_scan_bounds(chars, index + 1, depth - 1);
        } else if is_quote(chars[index]) {
            let end = closing(chars, chars[index], index + 1, chars.len() as int);
            lemma_closing(chars, chars[index], index + 1, chars.len() as int);
            if end < chars.len() {
                lemma_paren_scan_bounds(chars, end + 1, depth);
            }
        } else {
            lemma_paren_scan_bounds(chars, index + 1, depth);
        }
    }
}

/// The indices of `chars[i..]` outside string literals, in order; an
/// unterminated literal ends them.
pub open spec fn code_from(chars: Seq<char>, i: int) -> Seq<int>
    decreases chars.len() - i,
{
    if i < 0 || i >= chars.len() {
        Seq::empty()
    } else if is_quote(chars[i]) {
        let end = closing(chars, chars[i], i + 1, chars.len() as int);
        proof {
            lemma_closing(chars, chars[i], i + 1, chars.len() as int);
        }
        if end >= chars.len() {
            Seq::empty()
        } else {
            code_from(chars, end + 1)
        }
    } else {
        seq![i] + code_from(chars, i + 1)
    }
}

/// How a character changes the nesting of parentheses.
pub open spec fn nesting_step(c: char) -> int {
    if c == '(' {
        1
    } else if c == ')' {
        -1
    } else {
        0
    }
}

/// How the nesting changes over the characters at the indices `ks`.
pub open spec fn balance(chars: Seq<char>, ks: Seq<int>) -> int
    decreases ks.len(),
{
    if ks.len() == 0 {
        0
    } else {
        nesting_step(chars[ks[0]]) + balance(chars, ks.drop_first())
    }
}

/// The `n`-th of the indices `ks` holds a `)` that brings the nesting, begun
/// at `depth`, down to zero.
pub open spec fn closes_at(chars: Seq<char>, ks: Seq<int>, depth: int, n: int) -> bool {
    &&& 0 <= n < ks.len()
    &&& chars[ks[n]] == ')'
    &&& depth + balance(chars, ks.take(n + 1)) == 0
}

/// One index more in front shifts where the nesting drops to zero by one.
proof fn lemma_closes_shift(chars: Seq<char>, i: int, rest: Seq<int>, depth: int, n: int)
    requires
        0 <= n,
    ensures
        closes_at(chars, seq![i] + rest, depth, n + 1) == closes_at(
            chars,
            rest,
            depth + nesting_step(chars[i]),
            n,
        ),
{
    let ks = seq![i] + rest;
    if n < rest.len() {
        assert(ks.take(n + 2).drop_first() =~= rest.take(n + 1));
        assert(ks.take(n + 2)[0] == i);
        assert(ks[n + 1] == rest[n]);
    }
}

proof fn lemma_paren_scan_first(chars: Seq<char>, i: int, depth: int)
    ensures
        match paren_scan(chars, i, depth) {
            Some(close) => exists|n: int|
                {
                    &&& #[trigger] closes_at(chars, code_from(chars, i), depth, n)
                    &&& code_from(chars, i)[n] == close
                    &&& forall|m: int| 0 <= m < n ==> !closes_at(chars, code_from(chars, i), depth, m)
                },
            None => forall|n: int| !closes_at(chars, code_from(chars, i), depth, n),
        },
    decreases chars.len() - i,
{
    if 0 <= i < chars.len() {
        let ks = code_from(chars, i);
        if is_quote(chars[i]) {
            let end = closing(chars, chars[i], i + 1, chars.len() as int);
            lemma_closing(chars, chars[i], i + 1, chars.len() as int);
            if end < chars.len() {
                lemma_paren_scan_first(chars, end + 1, depth);
                assert(ks == code_from(chars, end + 1));
                assert(paren_scan(chars, i, depth) == paren_scan(chars, end + 1, depth));
            } else {
                assert(ks.len() == 0);
                assert(paren_scan(chars, i, depth) is None);
            }
        } else {
            let rest = code_from(chars, i + 1);
            let d = depth + nesting_step(chars[i]);
            assert(ks == seq![i] + rest);
            assert(ks.take(1) =~= seq![i]);
            assert(balance(chars, seq![i].drop_first()) == 0) by {
                assert(seq![i].drop_first() =~= Seq::<int>::empty());
            }
            assert(closes_at(chars, ks, depth, 0) == (chars[i] == ')' && depth - 1 == 0));
            if chars[i] == ')' && depth - 1 == 0 {
                assert(closes_at(chars, ks, depth, 0));
                assert(ks[0] == i);
                assert(paren_scan(chars, i, depth) == Some(i));
            } else {
                lemma_paren_scan_first(chars, i + 1, d);
                assert(paren_scan(chars, i, depth) == paren_scan(chars, i + 1, d));
                assert forall|n: int| 0 <= n implies #[trigger] closes_at(chars, ks, depth, n + 1)
                    == closes_at(chars, rest, d, n) by {
                    lemma_closes_shift(chars, i, rest, depth, n);
                }
                match paren_scan(chars, i + 1, d) {
                    Some(close) => {
                        let n = choose|n: int|
                            {
                                &&& #[trigger] closes_at(chars, rest, d, n)
                                &&& rest[n] == close
                                &&& forall|m: int| 0 <= m < n ==> !closes_at(chars, rest, d, m)
                            };
                        assert(closes_at(chars, ks, depth, n + 1));
                        assert(ks[n + 1] == close);
                        assert forall|m: int| 0 <= m < n + 1 implies !closes_at(
                            chars,
                            ks,
                            depth,
                            m,
                        ) by {
                            if m > 0 {
                                assert(closes_at(chars, ks, depth, (m - 1) + 1) == closes_at(
                                    chars,
                                    rest,
                                    d,
                                    m - 1,
                                ));
                            }
                        }
                    },
                    None => {
                        assert forall|n: int| !closes_at(chars, ks, depth, n) by {
                            if n > 0 {
                                assert(closes_at(chars, ks, depth, (n - 1) + 1) == closes_at(
                                    chars,
                                    rest,
                                    d,
                                    n - 1,
                                ));
                            }
                        }
                    },
                }
            }
        }
    }
}

/// The `)` matching the `(` at `open` is the first `)` outside string
/// literals at which the nesting, counted from `open`, drops to zero; there
/// is none when the nesting does not drop to zero before the line, or an
/// unterminated literal, ends.
pub proof fn law_matching_is_first_return_to_zero(chars: Seq<char>, open: int)
    ensures
        match matching(chars, open) {
            Some(close) => exists|n: int|
                {
                    &&& #[trigger] closes_at(chars, code_from(chars, open), 0, n)
                    &&& code_from(chars, open)[n] == close
                    &&& forall|m: int|
                        0 <= m < n ==> !closes_at(chars, code_from(chars, open), 0, m)
                },
            None => forall|n: int| !closes_at(chars, code_from(chars, open), 0, n),
        },
{
    lemma_paren_scan_first(chars, open, 0);
}

proof fn lemma_openings_from(chars: Seq<char>, i: int)
    requires
        0 <= i,
    ensures
        forall|k: int|
            0 <= k < openings_from(chars, i).len() ==> is_opening(
                chars,
                #[trigger] openings_from(chars, i)[k],
            ) && i <= openings_from(chars, i)[k],
        forall|a: int, b: int|
            0 <= a < b < openings_from(chars, i).len() ==> #[trigger] openings_from(chars, i)[a]
                < #[trigger] openings_from(chars, i)[b],
        forall|o: int| i <= o && is_opening(chars, o) ==> openings_from(chars, i).contains(o),
    decreases chars.len() - i,
{
    if i < chars.len() {
        lemma_openings_from(chars, i + 1);
        let rest = openings_from(chars, i + 1);
        if is_opening(chars, i) {
            let ops = openings_from(chars, i);
            assert(ops == seq![i] + rest);
            assert forall|k: int| 0 <= k < ops.len() implies is_opening(chars, #[trigger] ops[k])
                && i <= ops[k] by {
                if k > 0 {
                    assert(ops[k] == rest[k - 1]);
                }
            }
            assert forall|a: int, b: int| 0 <= a < b < ops.len() implies #[trigger] ops[a]
                < #[trigger] ops[b] by {
                assert(ops[b] == rest[b - 1]);
                if a > 0 {
                    assert(ops[a] == rest[a - 1]);
                }
            }
            assert forall|o: int| i <= o && is_opening(chars, o) implies ops.contains(o) by {
                if o == i {
                    assert(ops[0] == i);
                } else {
                    let q = choose|q: int| 0 <= q < rest.len() && rest[q] == o;
                    assert(ops[q + 1] == o);
                }
            }
        }
    }
}

proof fn lemma_resource_in_skips(chars: Seq<char>, column: int, opens: Seq<int>, idx: int)
    requires
        0 <= idx < opens.len(),
        forall|j: int|
            0 <= j < idx ==> column < #[trigger] opens[j] || (matching(chars, opens[j]) is Some
                && column > matching(chars, opens[j])->0),
    ensures
        resource_in(chars, column, opens) == resource_in(chars, column, opens.skip(idx)),
    decreases idx,
{
    if idx == 0 {
        assert(opens.skip(0) =~= opens);
    } else {
        assert(column < opens[0] || (matching(chars, opens[0]) is Some && column > matching(
            chars,
            opens[0],
        )->0));
        let rest = opens.drop_first();
        assert forall|j: int| 0 <= j < idx - 1 implies column < #[trigger] rest[j] || (matching(
            chars,
            rest[j],
        ) is Some && column > matching(chars, rest[j])->0) by {
            assert(rest[j] == opens[j + 1]);
        }
        lemma_resource_in_skips(chars, column, rest, idx - 1);
        assert(rest.skip(idx - 1) =~= opens.skip(idx));
    }
}

/// On a line whose localisation calls come one after another, the cursor
/// anywhere inside the parentheses of one of them that has at least two
/// string arguments gives that call's first two arguments, whatever calls
/// come before it on the line; where the cursor is also on a literal, that
/// is the reference under the cursor.
pub proof fn law_resource_of_the_enclosing_call(
    line: Seq<char>,
    column: int,
    open: int,
    close: int,
)
    requires
        is_opening(line, open),
        matching(line, open) == Some(close),
        open <= column <= close,
        arguments_in(line, open + 1, close).len() >= 2,
        forall|o: int|
            0 <= o < open && #[trigger] is_opening(line, o) ==> matching(line, o) is Some
                && matching(line, o)->0 < column,
    ensures
        resource_at(line, column) == Some(
            (arguments_in(line, open + 1, close)[0], arguments_in(line, open + 1, close)[1]),
        ),
        literal_at(line, column) is Some ==> reference_at(line, column) == Some(
            ReferenceView::Resource {
                key: arguments_in(line, open + 1, close)[0],
                bundle: arguments_in(line, open + 1, close)[1],
            },
        ),
{
    let opens = openings_from(line, 0);
    lemma_openings_from(line, 0);
    lemma_paren_scan_bounds(line, open, 0);
    assert(opens.contains(open));
    let idx = choose|idx: int| 0 <= idx < opens.len() && opens[idx] == open;
    assert forall|j: int| 0 <= j < idx implies column < #[trigger] opens[j] || (matching(
        line,
        opens[j],
    ) is Some && column > matching(line, opens[j])->0) by {
        assert(opens[j] < opens[idx]);
        assert(is_opening(line, opens[j]));
    }
    lemma_resource_in_skips(line, column, opens, idx);
    let tail = opens.skip(idx);
    assert(tail[0] == open);
    assert(column < line.len());
}

/// Either argument of a localisation call resolves to the same place: on a
/// line with one such call, every column inside its parentheses gives the
/// same key and bundle, and, where the cursor is on a literal, the same
/// reference.
pub proof fn law_either_argument(line: Seq<char>, open: int, c1: int, c2: int)
    requires
        openings_from(line, 0) == seq![open],
        matching(line, open) is Some,
        open <= c1 <= matching(line, open)->0,
        open <= c2 <= matching(line, open)->0,
    ensures
        resource_at(line, c1) == resource_at(line, c2),
        resource_at(line, c1) is Some && literal_at(line, c1) is Some && literal_at(line, c2) is Some
            ==> reference_at(line, c1) == reference_at(line, c2),
{
    lemma_paren_scan_bounds(line, open, 0);
    let opens = seq![open];
    assert(opens.drop_first() =~= Seq::<int>::empty());
    assert(resource_in(line, c1, opens.drop_first()) is None);
    assert(resource_in(line, c2, opens.drop_first()) is None);
    assert(resource_at(line, c1) == resource_in(line, c1, opens));
    assert(resource_at(line, c2) == resource_in(line, c2, opens));
    assert(c1 < line.len() && c2 < line.len());
}

/// A string literal, by the indices of its opening and closing quotes.
struct StringLiteral {
    start: usize,
    end: usize,
}

proof fn lemma_literal_bounds(chars: Seq<char>, lo: int, hi: int, column: int, i: int)
    requires
        0 <= lo <= hi <= chars.len(),
    ensures
        literal_in(chars, lo, hi, column, i) matches Some((s, e)) ==> {
            &&& lo <= s < e < hi
            &&& s + 1 <= column <= e
            &&& is_quote(chars[s])
            &&& chars[e] == chars[s]
            &&& forall|k: int| s < k < e ==> chars[k] != chars[s]
        },
    decreases hi - lo, hi - i,
{
    if i < lo || i >= hi {
    } else if !is_quote(chars[i]) {
        lemma_literal_bounds(chars, lo, hi, column, i + 1);
    } else {
        let end = closing(chars, chars[i], i + 1, hi);
        lemma_closing(chars, chars[i], i + 1, hi);
        if end >= hi {
        } else if i + 1 <= column <= end {
            lemma_literal_bounds(chars, i + 1, end, column, i + 1);
        } else {
            lemma_literal_bounds(chars, lo, hi, column, end + 1);
        }
    }
}

/// The literal found by a scan holds no closed literal inside its contents
/// that also holds the cursor.
proof fn lemma_literal_innermost(chars: Seq<char>, lo: int, hi: int, column: int, i: int)
    requires
        0 <= lo <= hi <= chars.len(),
    ensures
        literal_in(chars, lo, hi, column, i) matches Some((s, e)) ==> literal_in(
            chars,
            s + 1,
            e,
            column,
            s + 1,
        ) is None,
    decreases hi - lo, hi - i,
{
    if i < lo || i >= hi {
    } else if !is_quote(chars[i]) {
        lemma_literal_innermost(chars, lo, hi, column, i + 1);
    } else {
        let end = closing(chars, chars[i], i + 1, hi);
        lemma_closing(chars, chars[i], i + 1, hi);
        if end >= hi {
        } else if i + 1 <= column <= end {
            lemma_literal_innermost(chars, i + 1, end, column, i + 1);
        } else {
            lemma_literal_innermost(chars, lo, hi, column, end + 1);
        }
    }
}

/// Scanning for a closing quote inside a slice of `chars` finds the same
/// quote, counted from the slice's start.
proof fn lemma_closing_shift(chars: Seq<char>, a: int, b: int, quote: char, from: int, hi: int)
    requires
        0 <= a <= from <= hi <= b <= chars.len(),
    ensures
        closing(chars.subrange(a, b), quote, from - a, hi - a) == closing(chars, quote, from, hi)
            - a,
    decreases hi - from,
{
    if from < hi {
        assert(chars.subrange(a, b)[from - a] == chars[from]);
        lemma_closing_shift(chars, a, b, quote, from + 1, hi);
    }
}

/// Scanning for the literal inside a slice of `chars` finds the same literal,
/// counted from the slice's start.
proof fn lemma_literal_shift(chars: Seq<char>, a: int, b: int, lo: int, hi: int, column: int, i: int)
    requires
        0 <= a <= lo <= hi <= b <= chars.len(),
    ensures
        literal_in(chars.subrange(a, b), lo - a, hi - a, column - a, i - a) == match literal_in(
            chars,
            lo,
            hi,
            column,
            i,
        ) {
            Some((s, e)) => Some((s - a, e - a)),
            None => None,
        },
    decreases hi - lo, hi - i,
{
    let sub = chars.subrange(a, b);
    if i < lo || i >= hi {
    } else {
        assert(sub[i - a] == chars[i]);
        if !is_quote(chars[i]) {
            lemma_literal_shift(chars, a, b, lo, hi, column, i + 1);
        } else {
            let end = closing(chars, chars[i], i + 1, hi);
            lemma_closing(chars, chars[i], i + 1, hi);
            lemma_closing_shift(chars, a, b, chars[i], i + 1, hi);
            if end >= hi {
            } else if i + 1 <= column <= end {
                lemma_literal_shift(chars, a, b, i + 1, end, column, i + 1);
            } else {
                lemma_literal_shift(chars, a, b, lo, hi, column, end + 1);
            }
        }
    }
}

/// The literal found under the cursor is the innermost one: read on its own,
/// its contents hold no quoted literal that contains the cursor.
pub proof fn law_innermost_literal(chars: Seq<char>, column: int, start: int, end: int)
    requires
        literal_at(chars, column) == Some((start, end)),
    ensures
        literal_at(chars.subrange(start + 1, end), column - (start + 1)) is None,
{
    let n = chars.len() as int;
    lemma_literal_bounds(chars, 0, n, column, 0);
    lemma_literal_innermost(chars, 0, n, column, 0);
    lemma_literal_shift(chars, start + 1, end, start + 1, end, column, start + 1);
}

/// The first `quote` at or after `from` in `chars[..hi]`, else `hi`.
fn closing_quote(chars: &[char], quote: char, from: usize, hi: usize) -> (r: usize)
    requires
        from <= hi <= chars@.len(),
    ensures
        r == closing(chars@, quote, from as int, hi as int),
        from <= r <= hi,
{
    proof {
        lemma_closing(chars@, quote, from as int, hi as int);
    }
    let mut end = from;
    while end < hi && chars[end] != quote
        invariant
            from <= end <= hi <= chars@.len(),
            closing(chars@, quote, from as int, hi as int) == closing(
                chars@,
                quote,
                end as int,
                hi as int,
            ),
        decreases hi - end,
    {
        end = end + 1;
    }
    end
}

/// The quoted literal of `chars[lo..hi]` containing `column`, scanning from
/// the left so that quotes nested inside an outer attribute value resolve to
/// the inner one.
fn string_literal_at(chars: &[char], lo: usize, hi: usize, column: usize) -> (r: Option<
    StringLiteral,
>)
    requires
        lo <= hi <= chars@.len(),
    ensures
        match r {
            Some(l) => literal_in(chars@, lo as int, hi as int, column as int, lo as int) == Some(
                (l.start as int, l.end as int),
            ),
            None => literal_in(chars@, lo as int, hi as int, column as int, lo as int) is None,
        },
    decreases hi - lo,
{
    let mut index = lo;
    while index < hi
        invariant
            lo <= index <= hi <= chars@.len(),
            literal_in(chars@, lo as int, hi as int, column as int, lo as int) == literal_in(
                chars@,
                lo as int,
                hi as int,
                column as int,
                index as int,
            ),
        decreases hi - index,
    {
        let quote = chars[index];
        if quote != '\'' && quote != '"' {
            index = index + 1;
        } else {
            let content_start = index + 1;
            let end = closing_quote(chars, quote, content_start, hi);
            if end >= hi {
                return None;
            }
            if content_start <= column && column <= end {
                // `value="${require('x')}"`: prefer the inner literal the
                // cursor is actually on over the attribute value wrapping it.
                if let Some(nested) = string_literal_at(chars, content_start, end, column) {
                    return Some(nested);
                }
                return Some(StringLiteral { start: index, end });
            }
            index = end + 1;
        }
    }
    None
}

/// What precedes `name` where `chars[..end]` ends with `name(` plus optional
/// whitespace.
fn call_head_at(chars: &[char], end: usize, name: &[char]) -> (r: Option<Option<char>>)
    requires
        end <= chars@.len(),
    ensures
        r == call_head(chars@.take(end as int), name@),
{
    let trimmed = trim_end_len(chars, end);
    if trimmed == 0 || chars[trimmed - 1] != '(' {
        return None;
    }
    assert(chars@.take(trimmed as int).drop_last() =~= chars@.take(trimmed - 1));
    let head = trim_end_len(chars, trimmed - 1);
    if !ends_with_at(chars, head, name) {
        return None;
    }
    let p = head - name.len();
    if p == 0 {
        return Some(None);
    }
    let c = chars[p - 1];
    assert(chars@.take(head as int)[p - 1] == c);
    Some(Some(c))
}

/// Whether `before` ends with a call of `name` (`name(`, whitespace allowed
/// around the parenthesis), given whether the character before `name`, if
/// there is one, is alphanumeric.
pub fn ends_with_call_given(before: &str, name: &str, preceding_alphanumeric: bool) -> (b: bool)
    ensures
        b == names_call_given(before@, name@, preceding_alphanumeric),
{
    let chars = chars_of(before);
    let name_chars = chars_of(name);
    assert(chars@.take(chars@.len() as int) =~= chars@);
    match call_head_at(chars.as_slice(), chars.len(), name_chars.as_slice()) {
        None => false,
        Some(None) => true,
        Some(Some(c)) => !(preceding_alphanumeric || c == '_' || c == '$'),
    }
}

/// True when `chars[..end]` ends with `name(` plus optional whitespace.
fn ends_with_call(chars: &[char], end: usize, name: &[char]) -> (b: bool)
    requires
        end <= chars@.len(),
    ensures
        b == names_call(chars@.take(end as int), name@),
{
    match call_head_at(chars, end, name) {
        None => false,
        Some(None) => true,
        Some(Some(c)) => !(is_alphanumeric(c) || c == '_' || c == '$'),
    }
}

fn is_template_attribute(chars: &[char], end: usize) -> (b: bool)
    requires
        end <= chars@.len(),
    ensures
        b == assigns_template(chars@.take(end as int)),
{
    let trimmed = trim_end_len(chars, end);
    if trimmed == 0 || chars[trimmed - 1] != '=' {
        return false;
    }
    assert(chars@.take(trimmed as int).drop_last() =~= chars@.take(trimmed - 1));
    let head = trim_end_len(chars, trimmed - 1);
    let word = chars_of("template");
    let ghost lowered = ascii_lowercase(chars@.take(head as int));
    assert(lowered.len() == head);
    assert(assigns_template(chars@.take(end as int)) == ends_with(lowered, "template"@));
    if word.len() > head {
        return false;
    }
    let base = head - word.len();
    let mut i: usize = 0;
    while i < word.len()
        invariant
            word@ == "template"@,
            assigns_template(chars@.take(end as int)) == ends_with(lowered, "template"@),
            base + word@.len() == head <= chars@.len(),
            i <= word@.len(),
            lowered == ascii_lowercase(chars@.take(head as int)),
            forall|k: int| 0 <= k < i ==> lowered[base + k] == word@[k],
        decreases word@.len() - i,
    {
        assert(lowered[base + i] == ascii_lower(chars@[base + i]));
        if ascii_lower_char(chars[base + i]) != word[i] {
            assert(lowered.skip(base as int)[i as int] != word@[i as int]);
            return false;
        }
        i = i + 1;
    }
    assert(lowered.skip(base as int) =~= word@);
    true
}

/// `Resource.msg('key', 'bundle', null)`, `Resource.msgf(...)` and the Lit
/// client equivalent `i18nMessage('key', 'bundle')`. Either argument resolves
/// to the same place, so the whole call is matched rather than one literal.
fn resource_call(chars: &[char], column: usize) -> (r: Option<Reference>)
    ensures
        match r {
            Some(reference) => resource_at(chars@, column as int) matches Some((key, bundle))
                && reference@ == (ReferenceView::Resource { key, bundle }),
            None => resource_at(chars@, column as int) is None,
        },
{
    let opens = call_openings(chars);
    let ghost all = opens@.map_values(|o: usize| o as int);
    assert(all.skip(0) =~= all);
    let mut k: usize = 0;
    while k < opens.len()
        invariant
            k <= opens@.len(),
            all == opens@.map_values(|o: usize| o as int),
            all == openings_from(chars@, 0),
            forall|j: int| 0 <= j < opens@.len() ==> is_opening(chars@, #[trigger] all[j]),
            resource_at(chars@, column as int) == resource_in(
                chars@,
                column as int,
                all.skip(k as int),
            ),
        decreases opens@.len() - k,
    {
        let open = opens[k];
        assert(all.skip(k as int)[0] == open as int);
        assert(all.skip(k as int).drop_first() =~= all.skip(k + 1));
        assert(is_opening(chars@, all[k as int]));
        if column < open {
            k = k + 1;
        } else {
            let close = match matching_paren(chars, open) {
                Some(close) => close,
                None => return None,
            };
            if column > close {
                k = k + 1;
            } else {
                let args = string_arguments(chars, open + 1, close);
                if args.len() < 2 {
                    k = k + 1;
                } else {
                    let key = args[0].clone();
                    let bundle = args[1].clone();
                    return Some(Reference::Resource { key, bundle });
                }
            }
        }
    }
    None
}

/// Offsets of the `(` that open a localisation call.
fn call_openings(chars: &[char]) -> (openings: Vec<usize>)
    ensures
        openings@.map_values(|o: usize| o as int) == openings_from(chars@, 0),
        forall|j: int|
            0 <= j < openings@.len() ==> is_opening(chars@, #[trigger] openings@[j] as int),
{
    let msgf = chars_of("Resource.msgf");
    let msg = chars_of("Resource.msg");
    let i18n = chars_of("i18nMessage");
    let mut openings: Vec<usize> = Vec::new();
    let mut index: usize = 0;
    while index < chars.len()
        invariant
            index <= chars@.len(),
            msgf@ == "Resource.msgf"@,
            msg@ == "Resource.msg"@,
            i18n@ == "i18nMessage"@,
            openings@.map_values(|o: usize| o as int) + openings_from(chars@, index as int)
                == openings_from(chars@, 0),
            forall|j: int|
                0 <= j < openings@.len() ==> is_opening(chars@, #[trigger] openings@[j] as int),
        decreases chars@.len() - index,
    {
        let ghost before = openings@;
        if chars[index] == '(' {
            let head = trim_end_len(chars, index);
            if ends_with_at(chars, head, msgf.as_slice()) || ends_with_at(
                chars,
                head,
                msg.as_slice(),
            ) || ends_with_at(chars, head, i18n.as_slice()) {
                openings.push(index);
                assert(openings@.map_values(|o: usize| o as int) =~= before.map_values(
                    |o: usize| o as int,
                ) + seq![index as int]);
            }
        }
        index = index + 1;
    }
    assert(openings@.map_values(|o: usize| o as int) =~= openings@.map_values(
        |o: usize| o as int,
    ) + openings_from(chars@, index as int));
    openings
}

/// The `)` closing the `(` at `open`, skipping parentheses inside string
/// literals.
fn matching_paren(chars: &[char], open: usize) -> (r: Option<usize>)
    requires
        open < chars.len(),
        chars@[open as int] == '(',
    ensures
        match r {
            Some(close) => matching(chars@, open as int) == Some(close as int) && open < close
                < chars@.len(),
            None => matching(chars@, open as int) is None,
        },
{
    let mut depth: usize = 1;
    let mut index = open + 1;
    assert(paren_scan(chars@, open as int, 0) == paren_scan(chars@, index as int, 1));
    while index < chars.len()
        invariant
            open < index <= chars@.len(),
            1 <= depth <= index - open,
            matching(chars@, open as int) == paren_scan(chars@, index as int, depth as int),
        decreases chars@.len() - index,
    {
        let c = chars[index];
        if c == '(' {
            depth = depth + 1;
            index = index + 1;
        } else if c == ')' {
            if depth == 1 {
                return Some(index);
            }
            depth = depth - 1;
            index = index + 1;
        } else if c == '\'' || c == '"' {
            let end = closing_quote(chars, c, index + 1, chars.len());
            if end >= chars.len() {
                assert(paren_scan(chars@, end + 1, depth as int) is None);
                return None;
            }
            index = end + 1;
        } else {
            index = index + 1;
        }
    }
    None
}

/// The contents of the string literals in `chars[lo..hi]`.
fn string_arguments(chars: &[char], lo: usize, hi: usize) -> (arguments: Vec<String>)
    requires
        lo <= hi <= chars@.len(),
    ensures
        arguments@.map_values(|s: String| s@) == arguments_in(chars@, lo as int, hi as int),
{
    let mut arguments: Vec<String> = Vec::new();
    let mut index = lo;
    while index < hi
        invariant
            lo <= index <= hi <= chars@.len(),
            arguments@.map_values(|s: String| s@) + arguments_in(chars@, index as int, hi as int)
                == arguments_in(chars@, lo as int, hi as int),
        decreases hi - index,
    {
        let quote = chars[index];
        if quote == '\'' || quote == '"' {
            let start = index + 1;
            let end = closing_quote(chars, quote, start, hi);
            let ghost before = arguments@;
            arguments.push(string_of(&chars[start..end]));
            assert(arguments@.map_values(|s: String| s@) =~= before.map_values(|s: String| s@)
                + seq![chars@.subrange(start as int, end as int)]);
            if end >= hi {
                assert(arguments@.map_values(|s: String| s@) =~= arguments@.map_values(
                    |s: String| s@,
                ) + arguments_in(chars@, end as int, hi as int));
                return arguments;
            }
            index = end + 1;
        } else {
            index = index + 1;
        }
    }
    assert(arguments@.map_values(|s: String| s@) =~= arguments@.map_values(|s: String| s@)
        + arguments_in(chars@, index as int, hi as int));
    arguments
}

} // verus!
