//! Converting the UTF-16 columns of the editor protocol into character offsets.
use vstd::prelude::*;

use crate::text::chars_of;

verus! {

/// `char::len_utf16`: two code units for a character outside the Basic
/// Multilingual Plane, one otherwise.
pub open spec fn utf16_len(c: char) -> nat {
    if (c as u32) >= 0x10000 {
        2
    } else {
        1
    }
}

/// The number of UTF-16 code units that encode `s`.
pub open spec fn utf16_width(s: Seq<char>) -> nat
    decreases s.len(),
{
    if s.len() == 0 {
        0
    } else {
        utf16_width(s.drop_last()) + utf16_len(s.last())
    }
}

/// The first character index, at `i` or later, at which the UTF-16 offset
/// of `line` reaches `column`; the line's length when there is none.
pub open spec fn char_index_from(line: Seq<char>, column: int, i: int) -> int
    decreases line.len() - i,
{
    if i < 0 || i >= line.len() {
        line.len() as int
    } else if utf16_width(line.take(i)) >= column {
        i
    } else {
        char_index_from(line, column, i + 1)
    }
}

/// LSP columns are UTF-16 code units; the reference scanner works in chars.
pub fn char_offset(line: &str, utf16_column: usize) -> (index: usize)
    ensures
        index == char_index_from(line@, utf16_column as int, 0),
{
    let chars = chars_of(line);
    let mut utf16: usize = 0;
    let mut index: usize = 0;
    while index < chars.len()
        invariant
            index <= chars@.len(),
            chars@ == line@,
            utf16 as int == utf16_width(chars@.take(index as int)) || (utf16 == usize::MAX
                && utf16_width(chars@.take(index as int)) >= usize::MAX),
            char_index_from(line@, utf16_column as int, 0) == char_index_from(
                line@,
                utf16_column as int,
                index as int,
            ),
        decreases chars@.len() - index,
    {
        if utf16 >= utf16_column {
            return index;
        }
        let c = chars[index];
        let width: usize = if (c as u32) >= 0x10000 {
            2
        } else {
            1
        };
        assert(chars@.take(index + 1).drop_last() =~= chars@.take(index as int));
        utf16 = utf16.saturating_add(width);
        index = index + 1;
    }
    index
}

/// On a line whose characters each take one UTF-16 unit (ASCII, for
/// instance), the character offset is the UTF-16 column, clamped to the line.
pub proof fn law_single_unit_columns(line: Seq<char>, column: nat)
    requires
        forall|i: int| 0 <= i < line.len() ==> (#[trigger] line[i] as u32) < 0x10000,
    ensures
        char_index_from(line, column as int, 0) == if column < line.len() {
            column as int
        } else {
            line.len() as int
        },
{
    lemma_single_unit_from(line, column as int, 0);
}

proof fn lemma_single_unit_from(line: Seq<char>, column: int, i: int)
    requires
        forall|k: int| 0 <= k < line.len() ==> (#[trigger] line[k] as u32) < 0x10000,
        0 <= i <= column,
        i <= line.len(),
    ensures
        char_index_from(line, column, i) == if column < line.len() {
            column
        } else {
            line.len() as int
        },
    decreases line.len() - i,
{
    if i < line.len() {
        lemma_width_of_single_units(line, i);
        if i < column {
            lemma_single_unit_from(line, column, i + 1);
        }
    }
}

proof fn lemma_width_of_single_units(line: Seq<char>, i: int)
    requires
        forall|k: int| 0 <= k < line.len() ==> (#[trigger] line[k] as u32) < 0x10000,
        0 <= i <= line.len(),
    ensures
        utf16_width(line.take(i)) == i,
    decreases i,
{
    if i > 0 {
        lemma_width_of_single_units(line, i - 1);
        assert(line.take(i).drop_last() =~= line.take(i - 1));
        assert(line.take(i).last() == line[i - 1]);
    }
}

} // verus!
