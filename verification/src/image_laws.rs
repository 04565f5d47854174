//! How the text of content streams is taken apart, and what an inline image has to say.

use crate::inline_image::{
    after_comments, after_content_space, after_digits, after_hexadecimal, after_name, after_nested, after_operand,
    after_operation, after_operator, after_space, after_string, after_value, is_colorless, lacks_color_space,
    lemma_after_comments, lemma_after_content_space, lemma_after_operand, lemma_after_operation, lemma_after_space,
    lemma_line_end, lemma_words, line_end, no_entries, reaches, unescaped, with_image_entry, word_at, ImageEntries,
};
use crate::value::key;
use vstd::prelude::*;

verus! {

/// Whether `e` is the end of the run of good bytes that begins at `p`.
pub open spec fn run_ends(data: Seq<u8>, p: int, e: int, good: spec_fn(u8) -> bool) -> bool {
    &&& 0 <= p <= e <= data.len()
    &&& forall|i: int| p <= i < e ==> good(#[trigger] data[i])
    &&& e < data.len() ==> !good(data[e])
}

/// The bytes that names are made of: no white space and none of `()<>[]{}/%`.
pub open spec fn name_byte(b: u8) -> bool {
    &&& b != 0 && b != 9 && b != 10 && b != 12 && b != 13 && b != 32
    &&& b != 40 && b != 41 && b != 60 && b != 62 && b != 91 && b != 93 && b != 123 && b != 125 && b != 47 && b != 37
}

/// White space between operations ends at the first byte that is no space, tab or line end.
pub proof fn law_content_space_ends(data: Seq<u8>, p: int, e: int)
    requires
        run_ends(data, p, e, |b: u8| b == 32 || b == 9 || b == 13 || b == 10),
    ensures
        after_content_space(data, p) == e,
    decreases e - p,
{
    if p < e {
        assert(data[p] == data[p]);
        law_content_space_ends(data, p + 1, e);
    }
}

/// A name ends at the first byte that no name has.
pub proof fn law_name_ends(data: Seq<u8>, p: int, e: int)
    requires
        run_ends(data, p, e, |b: u8| name_byte(b)),
    ensures
        after_name(data, p) == e,
    decreases e - p,
{
    if p < e {
        assert(name_byte(data[p]));
        law_name_ends(data, p + 1, e);
    }
}

/// A number ends at the first byte that is neither a digit nor a point.
pub proof fn law_digits_end(data: Seq<u8>, p: int, e: int)
    requires
        run_ends(data, p, e, |b: u8| 48 <= b <= 57 || b == 46),
    ensures
        after_digits(data, p) == e,
    decreases e - p,
{
    if p < e {
        assert(data[p] == data[p]);
        law_digits_end(data, p + 1, e);
    }
}

/// An operator ends at the first byte that is no letter and none of `*`, `'` and `"`.
pub proof fn law_operator_ends(data: Seq<u8>, p: int, e: int)
    requires
        run_ends(data, p, e, |b: u8| 65 <= b <= 90 || 97 <= b <= 122 || b == 42 || b == 39 || b == 34),
    ensures
        after_operator(data, p) == e,
    decreases e - p,
{
    if p < e {
        assert(data[p] == data[p]);
        law_operator_ends(data, p + 1, e);
    }
}

/// A line ends at the first byte that ends lines.
pub proof fn law_line_ends(data: Seq<u8>, p: int, e: int)
    requires
        run_ends(data, p, e, |b: u8| b != 13 && b != 10),
    ensures
        line_end(data, p) == e,
    decreases e - p,
{
    if p < e {
        assert(data[p] == data[p]);
        law_line_ends(data, p + 1, e);
    }
}

/// White space is skipped, and a comment up to the end of its line. Space inside an object ends at
/// any other byte.
pub proof fn law_space_and_comments_are_skipped(data: Seq<u8>, p: int, e: int)
    requires
        0 <= p < data.len(),
        run_ends(data, p + 1, e, |b: u8| b != 13 && b != 10),
    ensures
        ({
            let b = data[p];
            if b == 32 || b == 9 || b == 13 || b == 10 || b == 0 || b == 12 {
                after_space(data, p) == after_space(data, p + 1)
            } else if b == 37 && e < data.len() {
                after_space(data, p) == after_space(data, e)
            } else {
                after_space(data, p) == p
            }
        }),
{
    law_line_ends(data, p + 1, e);
}

/// A string goes on over bytes that are no brackets and no backslashes.
pub proof fn law_strings_go_on(data: Seq<u8>, p: int, e: int, depth: nat)
    requires
        0 <= p <= e <= data.len(),
        forall|i: int| p <= i < e ==> #[trigger] data[i] != 40 && data[i] != 41 && data[i] != 92,
    ensures
        after_string(data, p, depth) == after_string(data, e, depth),
    decreases e - p,
{
    if p < e {
        assert(data[p] != 40);
        law_strings_go_on(data, p + 1, e, depth);
    }
}

/// A string ends at the bracket that closes its first one: each bracket that opens has to be closed,
/// and a byte behind a backslash is neither. A string that the data end in has no end.
pub proof fn law_strings_end_with_their_bracket(data: Seq<u8>, p: int, depth: nat)
    requires
        0 <= p,
        depth > 0,
    ensures
        p >= data.len() ==> after_string(data, p, depth) is None,
        p + 1 < data.len() && data[p] == 92 ==> after_string(data, p, depth) == after_string(data, p + 2, depth),
        p < data.len() && data[p] == 40 ==> after_string(data, p, depth) == after_string(data, p + 1, depth + 1),
        p < data.len() && data[p] == 41 && depth > 1 ==> after_string(data, p, depth) == after_string(
            data,
            p + 1,
            (depth - 1) as nat,
        ),
        p < data.len() && data[p] == 41 && depth == 1 ==> after_string(data, p, depth) == Some(p + 1),
{
}

/// A hexadecimal string ends behind the first `>`, and not without one.
pub proof fn law_hexadecimal_ends(data: Seq<u8>, p: int, e: int)
    requires
        run_ends(data, p, e, |b: u8| b != 62),
    ensures
        after_hexadecimal(data, p) == if e < data.len() {
            Some(e + 1)
        } else {
            None
        },
    decreases e - p,
{
    if p < e {
        assert(data[p] != 62);
        law_hexadecimal_ends(data, p + 1, e);
    }
}

/// An array or a dictionary goes on over bytes that are no brackets and begin no comment.
pub proof fn law_arrays_go_on(data: Seq<u8>, p: int, e: int, depth: nat)
    requires
        0 <= p <= e <= data.len(),
        forall|i: int|
            p <= i < e ==> #[trigger] data[i] != 40 && data[i] != 37 && data[i] != 91 && data[i] != 93 && data[i] != 60
                && data[i] != 62,
    ensures
        after_nested(data, p, depth) == after_nested(data, e, depth),
    decreases e - p,
{
    if p < e {
        assert(data[p] != 40);
        law_arrays_go_on(data, p + 1, e, depth);
    }
}

/// An array or a dictionary ends at the bracket that closes its first one: each one inside has to end
/// first, and brackets in strings do not count.
pub proof fn law_arrays_end_with_their_bracket(data: Seq<u8>, p: int, depth: nat)
    requires
        0 <= p,
        depth > 0,
    ensures
        p >= data.len() ==> after_nested(data, p, depth) is None,
        p < data.len() && data[p] == 91 ==> after_nested(data, p, depth) == after_nested(data, p + 1, depth + 1),
        p + 1 < data.len() && data[p] == 60 && data[p + 1] == 60 ==> after_nested(data, p, depth) == after_nested(
            data,
            p + 2,
            depth + 1,
        ),
        p < data.len() && data[p] == 93 ==> after_nested(data, p, depth) == if depth > 1 {
            after_nested(data, p + 1, (depth - 1) as nat)
        } else {
            Some(p + 1)
        },
        p + 1 < data.len() && data[p] == 62 && data[p + 1] == 62 ==> after_nested(data, p, depth) == if depth > 1 {
            after_nested(data, p + 2, (depth - 1) as nat)
        } else {
            Some(p + 2)
        },
        p < data.len() && data[p] == 40 ==> after_nested(data, p, depth) == match after_string(data, p + 1, 1) {
            Some(q) => after_nested(data, q, depth),
            None => None,
        },
{
}

proof fn lemma_unescaped(data: Seq<u8>, p: int, end: int)
    requires
        0 <= p <= end <= data.len(),
        forall|i: int| p <= i < end ==> #[trigger] data[i] != 35,
    ensures
        unescaped(data, p, end) == data.subrange(p, end),
    decreases end - p,
{
    if p < end {
        assert(data[p] != 35);
        lemma_unescaped(data, p + 1, end);
        assert(data.subrange(p, end) =~= seq![data[p]] + data.subrange(p + 1, end));
    } else {
        assert(data.subrange(p, end) =~= Seq::<u8>::empty());
    }
}

/// The name that an entry of an image is read under is the one that is written, and the entry goes on
/// to its value and behind it. A name without `#` is taken as it is written.
pub proof fn law_image_entries_are_read(
    data: Seq<u8>,
    p: int,
    e: int,
    value: int,
    end: int,
    entries: ImageEntries,
)
    requires
        0 <= p < data.len(),
        data[p] == 47,
        run_ends(data, p + 1, e, |b: u8| name_byte(b)),
        forall|i: int| p < i < e ==> #[trigger] data[i] != 35,
        value == after_space(data, e),
        after_value(data, value) == Some(end),
    ensures
        lacks_color_space(data, p, entries) == lacks_color_space(
            data,
            after_space(data, end),
            with_image_entry(entries, data.subrange(p + 1, e), data, value),
        ),
{
    law_name_ends(data, p + 1, e);
    lemma_unescaped(data, p + 1, e);
}

/// Where the entries of an image end there has to be an `ID`.
pub proof fn law_image_entries_end_with_id(data: Seq<u8>, p: int, entries: ImageEntries)
    requires
        0 <= p,
        p < data.len() ==> data[p] != 47,
    ensures
        lacks_color_space(data, p, entries) <==> p + key("ID").len() <= data.len() && data.subrange(
            p,
            p + key("ID").len(),
        ) == key("ID") && is_colorless(entries),
{
}

/// In a name `#` and two hexadecimal digits stand for the byte with that number, and every other byte
/// for itself.
pub proof fn law_escaped_bytes_are_read(data: Seq<u8>, p: int, end: int, high: int, low: int, byte: u8)
    requires
        0 <= p < end <= data.len(),
        0 <= high < 16,
        0 <= low < 16,
        byte == 16 * high + low,
    ensures
        data[p] != 35 ==> unescaped(data, p, end) == seq![data[p]] + unescaped(data, p + 1, end),
        data[p] == 35 && p + 2 < end && is_digit(data[p + 1], high) && is_digit(data[p + 2], low) ==> unescaped(
            data,
            p,
            end,
        ) == seq![byte] + unescaped(data, p + 3, end),
        data[p] == 35 && p + 2 >= end ==> unescaped(data, p, end) == seq![35u8] + unescaped(data, p + 1, end),
{
}

/// Whether a byte is the hexadecimal digit for a number.
pub open spec fn is_digit(b: u8, n: int) -> bool {
    (n < 10 && b == 48 + n) || (n >= 10 && (b == 55 + n || b == 87 + n))
}

/// Where an object ends is told by how it begins: a name, a string, a hexadecimal string, a
/// dictionary, an array, a number that no reference begins with, or a word.
pub proof fn law_values_end(data: Seq<u8>, p: int, e: int)
    requires
        0 <= p < data.len(),
    ensures
        data[p] == 47 ==> after_value(data, p) == Some(after_name(data, p + 1)),
        data[p] == 40 ==> after_value(data, p) == after_string(data, p + 1, 1),
        data[p] == 60 && p + 1 < data.len() && data[p + 1] == 60 ==> after_value(data, p) == after_nested(
            data,
            p + 2,
            1,
        ),
        data[p] == 60 && (p + 1 >= data.len() || data[p + 1] != 60) ==> after_value(data, p) == after_hexadecimal(
            data,
            p + 1,
        ),
        data[p] == 91 ==> after_value(data, p) == after_nested(data, p + 1, 1),
        p < e && run_ends(data, p, e, |b: u8| 48 <= b <= 57 || b == 46) && ({
            let next = after_space(data, e);
            next >= data.len() || !(48 <= data[next] <= 57 || data[next] == 46)
        }) ==> after_value(data, p) == Some(e),
        word_at(data, p, "true") || word_at(data, p, "null") ==> after_value(data, p) == Some(p + 4),
        word_at(data, p, "false") ==> after_value(data, p) == Some(p + 5),
{
    lemma_words();
    if word_at(data, p, "true") || word_at(data, p, "null") {
        assert(data[p] == data.subrange(p, p + 4)[0]);
    }
    if word_at(data, p, "false") {
        assert(data[p] == data.subrange(p, p + 5)[0]);
        if word_at(data, p, "true") || word_at(data, p, "null") {
            assert(data[p] == data.subrange(p, p + 4)[0]);
        }
    }
    if p < e && run_ends(data, p, e, |b: u8| 48 <= b <= 57 || b == 46) {
        law_digits_end(data, p, e);
        assert(48 <= data[p] <= 57 || data[p] == 46);
        lemma_after_space(data, e);
    }
}

/// An operation ends behind its operator and the white space there. Its operands and the white space
/// behind them come before.
pub proof fn law_operations_end(data: Seq<u8>, p: int, e: int)
    requires
        0 <= p < data.len(),
    ensures
        after_operand(data, p) matches Some(end) ==> after_operation(data, p) == after_operation(
            data,
            after_content_space(data, end),
        ),
        after_operand(data, p) is None && p < e && run_ends(
            data,
            p,
            e,
            |b: u8| 65 <= b <= 90 || 97 <= b <= 122 || b == 42 || b == 39 || b == 34,
        ) ==> after_operation(data, p) == Some(after_content_space(data, e)),
{
    if p < e && run_ends(data, p, e, |b: u8| 65 <= b <= 90 || 97 <= b <= 122 || b == 42 || b == 39 || b == 34) {
        law_operator_ends(data, p, e);
        assert(data[p] == data[p]);
    }
    if let Some(end) = after_operand(data, p) {
        lemma_after_operand(data, p);
        lemma_after_content_space(data, end);
    }
}

/// The entries of an image once names and the positions of their values are read, one after the
/// other.
pub open spec fn entries_after(data: Seq<u8>, read: Seq<(Seq<u8>, int)>) -> ImageEntries {
    read.fold_left(
        no_entries(),
        |entries: ImageEntries, item: (Seq<u8>, int)| with_image_entry(entries, item.0, data, item.1),
    )
}

/// Whether one of the entries has this name or its abbreviation.
pub open spec fn names_entry(read: Seq<(Seq<u8>, int)>, short: Seq<u8>, long: Seq<u8>) -> bool {
    exists|i: int| 0 <= i < read.len() && ((#[trigger] read[i]).0 == short || read[i].0 == long)
}

/// Whether entry `i` is the last one with this name.
pub open spec fn is_last(read: Seq<(Seq<u8>, int)>, name: Seq<u8>, i: int) -> bool {
    &&& 0 <= i < read.len()
    &&& read[i].0 == name
    &&& forall|j: int| i < j < read.len() ==> (#[trigger] read[j]).0 != name
}

/// Whether there is an entry with this name, and the last one is true.
pub open spec fn last_is_true(data: Seq<u8>, read: Seq<(Seq<u8>, int)>, name: Seq<u8>) -> bool {
    exists|i: int| #[trigger] is_last(read, name, i) && word_at(data, read[i].1, "true")
}

proof fn lemma_named_before(read: Seq<(Seq<u8>, int)>, short: Seq<u8>, long: Seq<u8>)
    requires
        read.len() > 0,
    ensures
        names_entry(read, short, long) <==> names_entry(read.drop_last(), short, long) || read.last().0 == short
            || read.last().0 == long,
{
    let before = read.drop_last();
    if names_entry(before, short, long) {
        let i = choose|i: int| 0 <= i < before.len() && ((#[trigger] before[i]).0 == short || before[i].0 == long);
        assert(read[i] == before[i]);
    }
    if names_entry(read, short, long) {
        let i = choose|i: int| 0 <= i < read.len() && ((#[trigger] read[i]).0 == short || read[i].0 == long);
        if i < before.len() {
            assert(read[i] == before[i]);
        }
    }
    assert(read[read.len() - 1] == read.last());
}

proof fn lemma_last_before(data: Seq<u8>, read: Seq<(Seq<u8>, int)>, name: Seq<u8>)
    requires
        read.len() > 0,
    ensures
        last_is_true(data, read, name) == if read.last().0 == name {
            word_at(data, read.last().1, "true")
        } else {
            last_is_true(data, read.drop_last(), name)
        },
{
    let before = read.drop_last();
    let n = read.len() - 1;
    if read.last().0 == name {
        assert(is_last(read, name, n));
        assert forall|i: int| #[trigger] is_last(read, name, i) implies i == n by {
            assert(read[n].0 == name);
        }
    } else {
        assert forall|i: int| is_last(read, name, i) <==> #[trigger] is_last(before, name, i) by {
            if is_last(read, name, i) {
                assert(i < n);
                assert forall|j: int| i < j < before.len() implies (#[trigger] before[j]).0 != name by {
                    assert(read[j] == before[j]);
                }
            }
            if is_last(before, name, i) {
                assert forall|j: int| i < j < read.len() implies (#[trigger] read[j]).0 != name by {
                    if j < n {
                        assert(read[j] == before[j]);
                    }
                }
            }
        }
        if last_is_true(data, read, name) {
            let i = choose|i: int| #[trigger] is_last(read, name, i) && word_at(data, read[i].1, "true");
            assert(is_last(before, name, i));
        }
        if last_is_true(data, before, name) {
            let i = choose|i: int| #[trigger] is_last(before, name, i) && word_at(data, before[i].1, "true");
            assert(is_last(read, name, i));
        }
    }
}

proof fn lemma_entries(data: Seq<u8>, read: Seq<(Seq<u8>, int)>)
    ensures
        ({
            let entries = entries_after(data, read);
            &&& entries.width == names_entry(read, key("W"), key("Width"))
            &&& entries.height == names_entry(read, key("H"), key("Height"))
            &&& entries.bits == names_entry(read, key("BPC"), key("BitsPerComponent"))
            &&& entries.colored == names_entry(read, key("CS"), key("ColorSpace"))
            &&& entries.short_mask is Some == names_entry(read, key("IM"), key("IM"))
            &&& entries.short_mask == Some(true) <==> last_is_true(data, read, key("IM"))
            &&& entries.mask == Some(true) <==> last_is_true(data, read, key("ImageMask"))
        }),
    decreases read.len(),
{
    if read.len() > 0 {
        lemma_entries(data, read.drop_last());
        lemma_named_before(read, key("W"), key("Width"));
        lemma_named_before(read, key("H"), key("Height"));
        lemma_named_before(read, key("BPC"), key("BitsPerComponent"));
        lemma_named_before(read, key("CS"), key("ColorSpace"));
        lemma_named_before(read, key("IM"), key("IM"));
        lemma_last_before(data, read, key("IM"));
        lemma_last_before(data, read, key("ImageMask"));
    }
}

/// An image cannot be sized if it has a width, a height and a number of bits, but no color space, and
/// is no mask. Whether it is a mask is told by the last `IM`, and where there is none by the last
/// `ImageMask`.
pub proof fn law_images_need_a_color_space(data: Seq<u8>, read: Seq<(Seq<u8>, int)>)
    ensures
        is_colorless(entries_after(data, read)) <==> {
            &&& names_entry(read, key("W"), key("Width"))
            &&& names_entry(read, key("H"), key("Height"))
            &&& names_entry(read, key("BPC"), key("BitsPerComponent"))
            &&& !names_entry(read, key("CS"), key("ColorSpace"))
            &&& if names_entry(read, key("IM"), key("IM")) {
                !last_is_true(data, read, key("IM"))
            } else {
                !last_is_true(data, read, key("ImageMask"))
            }
        },
{
    lemma_entries(data, read);
}

/// Operations start one behind the other: the first one behind the comments, and each further one
/// where the one before it ends. Behind an inline image one can start anywhere.
pub proof fn law_operations_start_in_turn(data: Seq<u8>, from: int, p: int)
    requires
        0 <= from,
    ensures
        ({
            let start = after_comments(data, from);
            &&& start == p ==> reaches(data, from, p)
            &&& start > p ==> !reaches(data, from, p)
            &&& start < p && data.len() >= start + key("BI").len() && data.subrange(start, start + key("BI").len())
                == key("BI") ==> reaches(data, from, p)
            &&& start < p && !word_at(data, start, "BI") ==> reaches(data, from, p) == match after_operation(
                data,
                start,
            ) {
                Some(next) => reaches(data, next, p),
                None => false,
            }
        }),
{
    lemma_after_comments(data, from);
    lemma_after_operation(data, after_comments(data, from));
}

/// A line that begins with `%` is a comment.
pub proof fn law_comments_are_lines(data: Seq<u8>, p: int, e: int)
    requires
        0 <= p < data.len(),
        run_ends(data, p + 1, e, |b: u8| b != 13 && b != 10),
        e < data.len(),
    ensures
        data[p] != 37 ==> after_comments(data, p) == p,
        data[p] == 37 && data[e] == 13 && e + 1 < data.len() && data[e + 1] == 10 ==> after_comments(data, p)
            == after_comments(data, e + 2),
        data[p] == 37 && (data[e] == 10 || e + 1 >= data.len() || data[e + 1] != 10) ==> after_comments(data, p)
            == after_comments(data, e + 1),
{
    law_line_ends(data, p + 1, e);
    lemma_line_end(data, p + 1);
}

} // verus!
