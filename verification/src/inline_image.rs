//! Inline images in content streams.
//!
//! An inline image is written as `BI`, the entries of a dictionary, `ID`, the data and `EI`. The
//! color space of an image that is no mask has to be among the entries: without it the size of
//! the data is unknown, and lopdf panics when it comes to the image. This file finds out whether
//! it does: such an image is looked for at the positions where an operation can start, and whether
//! lopdf gets as far is seen from what it reads of the bytes before the image.

use crate::pdf::{decode_content, decoded};
use crate::prefix::lemma_marked;
use crate::text::same_text;
use crate::value::{is_word, key, operation_value, operation_values};
use vstd::prelude::*;

verus! {

/// White space between the operands and operators of a content stream.
pub open spec fn content_space(b: u8) -> bool {
    b == 32 || b == 9 || b == 13 || b == 10
}

/// White space inside a PDF object.
pub open spec fn blank(b: u8) -> bool {
    content_space(b) || b == 0 || b == 12
}

/// The bytes `()<>[]{}/%`, which end a name.
pub open spec fn delimiter(b: u8) -> bool {
    b == 40 || b == 41 || b == 60 || b == 62 || b == 91 || b == 93 || b == 123 || b == 125 || b == 47 || b == 37
}

/// The bytes of names.
pub open spec fn regular(b: u8) -> bool {
    !blank(b) && !delimiter(b)
}

/// The bytes of numbers behind their sign.
pub open spec fn numeric(b: u8) -> bool {
    48 <= b <= 57 || b == 46
}

/// Whether `b` stands at `p`.
pub open spec fn byte_at(data: Seq<u8>, p: int, b: u8) -> bool {
    0 <= p < data.len() && data[p] == b
}

/// Whether the word stands at `p`.
pub open spec fn word_at(data: Seq<u8>, p: int, word: &str) -> bool {
    0 <= p && p + key(word).len() <= data.len() && data.subrange(p, p + key(word).len()) == key(word)
}

/// The position behind the white space of a content stream at `p`.
pub open spec fn after_content_space(data: Seq<u8>, p: int) -> int
    decreases data.len() - p,
{
    if 0 <= p < data.len() && content_space(data[p]) {
        after_content_space(data, p + 1)
    } else {
        p
    }
}

/// The position of the end of the line that `p` stands in.
pub open spec fn line_end(data: Seq<u8>, p: int) -> int
    decreases data.len() - p,
{
    if 0 <= p < data.len() && data[p] != 13 && data[p] != 10 {
        line_end(data, p + 1)
    } else {
        p
    }
}

/// The position behind the white space and the comments at `p`.
pub open spec fn after_space(data: Seq<u8>, p: int) -> int
    decreases data.len() - p,
{
    if !(0 <= p < data.len()) {
        p
    } else if blank(data[p]) {
        after_space(data, p + 1)
    } else if data[p] == 37 && line_end(data, p + 1) < data.len() {
        proof {
            lemma_line_end(data, p + 1);
        }
        after_space(data, line_end(data, p + 1))
    } else {
        p
    }
}

/// The position behind the name that goes on at `p`.
pub open spec fn after_name(data: Seq<u8>, p: int) -> int
    decreases data.len() - p,
{
    if 0 <= p < data.len() && regular(data[p]) {
        after_name(data, p + 1)
    } else {
        p
    }
}

/// The position behind the digits and points at `p`.
pub open spec fn after_digits(data: Seq<u8>, p: int) -> int
    decreases data.len() - p,
{
    if 0 <= p < data.len() && numeric(data[p]) {
        after_digits(data, p + 1)
    } else {
        p
    }
}

/// The position behind the number at `p`, or behind the reference that it begins.
pub open spec fn after_number(data: Seq<u8>, p: int) -> int {
    let end = after_digits(
        data,
        if byte_at(data, p, 43) || byte_at(data, p, 45) {
            p + 1
        } else {
            p
        },
    );
    let second = after_space(data, end);
    let mark = after_space(data, after_digits(data, second));
    if second < after_digits(data, second) && byte_at(data, mark, 82) {
        mark + 1
    } else {
        end
    }
}

/// The position behind the string that goes on at `p`, inside `depth` open brackets: `None` if
/// it does not end.
pub open spec fn after_string(data: Seq<u8>, p: int, depth: nat) -> Option<int>
    decreases data.len() - p,
{
    if !(0 <= p < data.len()) {
        None
    } else if data[p] == 92 {
        if p + 1 < data.len() {
            after_string(data, p + 2, depth)
        } else {
            None
        }
    } else if data[p] == 40 {
        after_string(data, p + 1, depth + 1)
    } else if data[p] == 41 {
        if depth <= 1 {
            Some(p + 1)
        } else {
            after_string(data, p + 1, (depth - 1) as nat)
        }
    } else {
        after_string(data, p + 1, depth)
    }
}

/// The position behind the hexadecimal string that goes on at `p`: `None` if it does not end.
pub open spec fn after_hexadecimal(data: Seq<u8>, p: int) -> Option<int>
    decreases data.len() - p,
{
    if !(0 <= p < data.len()) {
        None
    } else if data[p] == 62 {
        Some(p + 1)
    } else {
        after_hexadecimal(data, p + 1)
    }
}

/// The position behind the array or dictionary that goes on at `p`, inside `depth` open ones:
/// `None` if it does not end.
pub open spec fn after_nested(data: Seq<u8>, p: int, depth: nat) -> Option<int>
    decreases data.len() - p,
{
    if !(0 <= p < data.len()) {
        None
    } else if data[p] == 40 {
        match after_string(data, p + 1, 1) {
            Some(q) => {
                proof {
                    lemma_after_string(data, p + 1, 1);
                }
                after_nested(data, q, depth)
            },
            None => None,
        }
    } else if data[p] == 37 {
        proof {
            lemma_line_end(data, p + 1);
        }
        after_nested(data, line_end(data, p + 1), depth)
    } else if data[p] == 91 {
        after_nested(data, p + 1, depth + 1)
    } else if data[p] == 60 && byte_at(data, p + 1, 60) {
        after_nested(data, p + 2, depth + 1)
    } else if data[p] == 60 {
        match after_hexadecimal(data, p + 1) {
            Some(q) => {
                proof {
                    lemma_after_hexadecimal(data, p + 1);
                }
                after_nested(data, q, depth)
            },
            None => None,
        }
    } else if data[p] == 93 || (data[p] == 62 && byte_at(data, p + 1, 62)) {
        let q = if data[p] == 93 {
            p + 1
        } else {
            p + 2
        };
        if depth <= 1 {
            Some(q)
        } else {
            after_nested(data, q, (depth - 1) as nat)
        }
    } else {
        after_nested(data, p + 1, depth)
    }
}

/// The position behind the object at `p`: `None` if no object begins there or if it does not end.
pub open spec fn after_value(data: Seq<u8>, p: int) -> Option<int> {
    if !(0 <= p < data.len()) {
        None
    } else if data[p] == 47 {
        Some(after_name(data, p + 1))
    } else if word_at(data, p, "true") || word_at(data, p, "null") {
        Some(p + 4)
    } else if word_at(data, p, "false") {
        Some(p + 5)
    } else if numeric(data[p]) || data[p] == 43 || data[p] == 45 {
        Some(after_number(data, p))
    } else if data[p] == 40 {
        after_string(data, p + 1, 1)
    } else if data[p] == 60 && !byte_at(data, p + 1, 60) {
        after_hexadecimal(data, p + 1)
    } else if data[p] == 60 {
        after_nested(data, p + 2, 1)
    } else if data[p] == 91 {
        after_nested(data, p + 1, 1)
    } else {
        None
    }
}

/// The hexadecimal digits.
pub open spec fn hexadecimal(b: u8) -> bool {
    48 <= b <= 57 || 65 <= b <= 70 || 97 <= b <= 102
}

/// The value of a hexadecimal digit.
pub open spec fn digit_value(b: u8) -> int {
    if b <= 57 {
        b - 48
    } else if b <= 70 {
        b - 55
    } else {
        b - 87
    }
}

/// The bytes of the name that is written from `p` to before `end`, where `#` and two hexadecimal
/// digits stand for one byte.
pub open spec fn unescaped(data: Seq<u8>, p: int, end: int) -> Seq<u8>
    decreases end - p,
{
    if p >= end {
        Seq::empty()
    } else if data[p] == 35 && p + 2 < end && hexadecimal(data[p + 1]) && hexadecimal(data[p + 2]) {
        seq![(digit_value(data[p + 1]) * 16 + digit_value(data[p + 2])) as u8] + unescaped(data, p + 3, end)
    } else {
        seq![data[p]] + unescaped(data, p + 1, end)
    }
}

/// What the entries of an inline image say.
pub struct ImageEntries {
    /// There is a width.
    pub width: bool,
    /// There is a height.
    pub height: bool,
    /// There is a number of bits for each component.
    pub bits: bool,
    /// There is a color space.
    pub colored: bool,
    /// Whether the last `IM` is true.
    pub short_mask: Option<bool>,
    /// Whether the last `ImageMask` is true.
    pub mask: Option<bool>,
}

/// The entries of an image before any is read.
pub open spec fn no_entries() -> ImageEntries {
    ImageEntries { width: false, height: false, bits: false, colored: false, short_mask: None, mask: None }
}

/// The entries once a name and the value at `value` are read.
pub open spec fn with_image_entry(entries: ImageEntries, name: Seq<u8>, data: Seq<u8>, value: int) -> ImageEntries {
    let truth = word_at(data, value, "true");
    ImageEntries {
        width: entries.width || name == key("W") || name == key("Width"),
        height: entries.height || name == key("H") || name == key("Height"),
        bits: entries.bits || name == key("BPC") || name == key("BitsPerComponent"),
        colored: entries.colored || name == key("CS") || name == key("ColorSpace"),
        short_mask: if name == key("IM") {
            Some(truth)
        } else {
            entries.short_mask
        },
        mask: if name == key("ImageMask") {
            Some(truth)
        } else {
            entries.mask
        },
    }
}

/// Whether an image with these entries is no mask and has a size, but no color space.
pub open spec fn is_colorless(entries: ImageEntries) -> bool {
    entries.width && entries.height && entries.bits && !entries.colored && match entries.short_mask {
        Some(truth) => !truth,
        None => entries.mask != Some(true),
    }
}

/// Whether the entries of an inline image that go on at `p` come to `ID` without a color space,
/// though the image is no mask and has a size.
pub open spec fn lacks_color_space(data: Seq<u8>, p: int, entries: ImageEntries) -> bool
    decreases data.len() - p,
{
    if byte_at(data, p, 47) {
        let name_end = after_name(data, p + 1);
        let value = after_space(data, name_end);
        match after_value(data, value) {
            Some(end) => {
                proof {
                    lemma_after_name(data, p + 1);
                    lemma_after_space(data, name_end);
                    lemma_after_value(data, value);
                    lemma_after_space(data, end);
                }
                lacks_color_space(
                    data,
                    after_space(data, end),
                    with_image_entry(entries, unescaped(data, p + 1, name_end), data, value),
                )
            },
            None => false,
        }
    } else {
        word_at(data, p, "ID") && is_colorless(entries)
    }
}

/// Whether the text at `p` is an inline image that is no mask and has no color space.
pub open spec fn bad_image_at(data: Seq<u8>, p: int) -> bool {
    word_at(data, p, "BI") && lacks_color_space(data, after_content_space(data, p + 2), no_entries())
}

/// The bytes of operators: letters, and `*`, `'` and `"`.
pub open spec fn operator_byte(b: u8) -> bool {
    65 <= b <= 90 || 97 <= b <= 122 || b == 42 || b == 39 || b == 34
}

/// The position behind the operator that goes on at `p`.
pub open spec fn after_operator(data: Seq<u8>, p: int) -> int
    decreases data.len() - p,
{
    if 0 <= p < data.len() && operator_byte(data[p]) {
        after_operator(data, p + 1)
    } else {
        p
    }
}

/// The position behind the comments at `p`, each of which is a line.
pub open spec fn after_comments(data: Seq<u8>, p: int) -> int
    decreases data.len() - p,
{
    if byte_at(data, p, 37) && line_end(data, p + 1) < data.len() {
        proof {
            lemma_line_end(data, p + 1);
        }
        let end = line_end(data, p + 1);
        after_comments(
            data,
            if byte_at(data, end, 13) && byte_at(data, end + 1, 10) {
                end + 2
            } else {
                end + 1
            },
        )
    } else {
        p
    }
}

/// The position behind the operand at `p`: `None` if none begins there or if it does not end. In a
/// content stream a number does not begin a reference.
pub open spec fn after_operand(data: Seq<u8>, p: int) -> Option<int> {
    if byte_at(data, p, 43) || byte_at(data, p, 45) {
        Some(after_digits(data, p + 1))
    } else if 0 <= p < data.len() && numeric(data[p]) {
        Some(after_digits(data, p))
    } else {
        after_value(data, p)
    }
}

/// The position behind the operation that goes on at `p`, and the white space behind it: `None` if
/// operands do not come to an operator.
pub open spec fn after_operation(data: Seq<u8>, p: int) -> Option<int>
    decreases data.len() - p,
{
    match after_operand(data, p) {
        Some(end) => {
            proof {
                lemma_after_operand(data, p);
                lemma_after_content_space(data, end);
            }
            after_operation(data, after_content_space(data, end))
        },
        None => if 0 <= p < data.len() && operator_byte(data[p]) {
            Some(after_content_space(data, after_operator(data, p)))
        } else {
            None
        },
    }
}

/// Whether an operation can start at `p` where one starts at `from`. Behind an inline image, one can
/// start anywhere.
pub open spec fn reaches(data: Seq<u8>, from: int, p: int) -> bool
    decreases data.len() - from,
{
    let start = after_comments(data, from);
    if start >= p {
        start == p
    } else if word_at(data, start, "BI") {
        true
    } else {
        match after_operation(data, start) {
            Some(next) => {
                proof {
                    lemma_after_comments(data, from);
                    lemma_after_operation(data, start);
                }
                reaches(data, next, p)
            },
            None => false,
        }
    }
}

/// Whether an operation can start at `p`.
pub open spec fn operation_at(data: Seq<u8>, p: int) -> bool {
    reaches(data, after_content_space(data, 0), p)
}

/// A text of `n` letters.
pub open spec fn letters(n: int) -> Seq<char> {
    Seq::new(n as nat, |i: int| 'q')
}

/// The data up to `p`, with an operator behind them that is longer than they are.
pub open spec fn marked(data: Seq<u8>, p: int) -> Seq<u8> {
    data.take(p) + Seq::new((p + 1) as nat, |i: int| 113u8)
}

/// Whether lopdf comes to position `p` as the start of an operation: it does if it reads the data
/// up to `p` and then the operator that is put there.
pub open spec fn comes_to(data: Seq<u8>, p: int) -> bool {
    match decoded(marked(data, p)) {
        Some(ops) => ops.len() > 0 && ops.last().operator == letters(p + 1) && ops.last().operands.len() == 0,
        None => false,
    }
}

/// Whether lopdf comes to an inline image of the content stream that is no mask and has no color
/// space.
pub open spec fn has_bad_image(data: Seq<u8>) -> bool {
    exists|p: int| operation_at(data, p) && #[trigger] bad_image_at(data, p) && comes_to(data, p)
}

/// The bytes of the words that are looked for.
pub proof fn lemma_words()
    ensures
        key("true") == seq![116u8, 114u8, 117u8, 101u8],
        key("null") == seq![110u8, 117u8, 108u8, 108u8],
        key("false") == seq![102u8, 97u8, 108u8, 115u8, 101u8],
        key("BI") == seq![66u8, 73u8],
        key("ID") == seq![73u8, 68u8],
{
    reveal_strlit("true");
    reveal_strlit("null");
    reveal_strlit("false");
    reveal_strlit("BI");
    reveal_strlit("ID");
    vstd::string::is_ascii_spec_bytes("true");
    vstd::string::is_ascii_spec_bytes("null");
    vstd::string::is_ascii_spec_bytes("false");
    vstd::string::is_ascii_spec_bytes("BI");
    vstd::string::is_ascii_spec_bytes("ID");
    assert(key("true") =~= seq![116u8, 114u8, 117u8, 101u8]);
    assert(key("null") =~= seq![110u8, 117u8, 108u8, 108u8]);
    assert(key("false") =~= seq![102u8, 97u8, 108u8, 115u8, 101u8]);
    assert(key("BI") =~= seq![66u8, 73u8]);
    assert(key("ID") =~= seq![73u8, 68u8]);
}

/// White space ends inside the data, not before it begins.
pub proof fn lemma_after_content_space(data: Seq<u8>, p: int)
    ensures
        p <= after_content_space(data, p),
        0 <= p <= data.len() ==> after_content_space(data, p) <= data.len(),
    decreases data.len() - p,
{
    if 0 <= p < data.len() && content_space(data[p]) {
        lemma_after_content_space(data, p + 1);
    }
}

/// An operator ends inside the data, not before it begins.
pub proof fn lemma_after_operator(data: Seq<u8>, p: int)
    ensures
        p <= after_operator(data, p),
        0 <= p <= data.len() ==> after_operator(data, p) <= data.len(),
        0 <= p < data.len() && operator_byte(data[p]) ==> p < after_operator(data, p),
        forall|i: int| p <= i < after_operator(data, p) ==> operator_byte(#[trigger] data[i]),
        0 <= p && after_operator(data, p) < data.len() ==> !operator_byte(data[after_operator(data, p)]),
    decreases data.len() - p,
{
    if 0 <= p < data.len() && operator_byte(data[p]) {
        lemma_after_operator(data, p + 1);
    }
}

/// Comments end inside the data, not before they begin.
pub proof fn lemma_after_comments(data: Seq<u8>, p: int)
    ensures
        p <= after_comments(data, p),
        0 <= p <= data.len() ==> after_comments(data, p) <= data.len(),
    decreases data.len() - p,
{
    if byte_at(data, p, 37) {
        lemma_line_end(data, p + 1);
        let end = line_end(data, p + 1);
        if end < data.len() {
            lemma_after_comments(
                data,
                if byte_at(data, end, 13) && byte_at(data, end + 1, 10) {
                    end + 2
                } else {
                    end + 1
                },
            );
        }
    }
}

/// An operand ends inside the data, behind its begin.
pub proof fn lemma_after_operand(data: Seq<u8>, p: int)
    ensures
        after_operand(data, p) matches Some(q) ==> p < q <= data.len(),
{
    lemma_after_digits(data, p);
    lemma_after_digits(data, p + 1);
    lemma_after_value(data, p);
}

/// An operation ends inside the data, behind its begin.
pub proof fn lemma_after_operation(data: Seq<u8>, p: int)
    ensures
        after_operation(data, p) matches Some(q) ==> p < q <= data.len(),
    decreases data.len() - p,
{
    match after_operand(data, p) {
        Some(end) => {
            lemma_after_operand(data, p);
            lemma_after_content_space(data, end);
            lemma_after_operation(data, after_content_space(data, end));
        },
        None => {
            lemma_after_operator(data, p);
            lemma_after_content_space(data, after_operator(data, p));
        },
    }
}

/// The end of a line does not lie before the position that is asked about.
pub proof fn lemma_line_end(data: Seq<u8>, p: int)
    ensures
        p <= line_end(data, p),
        0 <= p <= data.len() ==> line_end(data, p) <= data.len(),
    decreases data.len() - p,
{
    if 0 <= p < data.len() && data[p] != 13 && data[p] != 10 {
        lemma_line_end(data, p + 1);
    }
}

/// White space ends inside the data, not before it begins.
pub proof fn lemma_after_space(data: Seq<u8>, p: int)
    ensures
        p <= after_space(data, p),
        0 <= p <= data.len() ==> after_space(data, p) <= data.len(),
    decreases data.len() - p,
{
    if 0 <= p < data.len() {
        if blank(data[p]) {
            lemma_after_space(data, p + 1);
        } else if data[p] == 37 {
            lemma_line_end(data, p + 1);
            lemma_after_space(data, line_end(data, p + 1));
        }
    }
}

/// A name ends inside the data, not before it begins.
pub proof fn lemma_after_name(data: Seq<u8>, p: int)
    ensures
        p <= after_name(data, p),
        0 <= p <= data.len() ==> after_name(data, p) <= data.len(),
    decreases data.len() - p,
{
    if 0 <= p < data.len() && regular(data[p]) {
        lemma_after_name(data, p + 1);
    }
}

/// Digits end inside the data, not before they begin.
pub proof fn lemma_after_digits(data: Seq<u8>, p: int)
    ensures
        p <= after_digits(data, p),
        0 <= p <= data.len() ==> after_digits(data, p) <= data.len(),
        0 <= p < data.len() && numeric(data[p]) ==> p < after_digits(data, p),
    decreases data.len() - p,
{
    if 0 <= p < data.len() && numeric(data[p]) {
        lemma_after_digits(data, p + 1);
    }
}

/// A string ends inside the data, behind its begin.
pub proof fn lemma_after_string(data: Seq<u8>, p: int, depth: nat)
    ensures
        after_string(data, p, depth) matches Some(q) ==> p < q <= data.len(),
    decreases data.len() - p,
{
    if 0 <= p < data.len() {
        if p + 1 < data.len() {
            lemma_after_string(data, p + 2, depth);
        }
        lemma_after_string(data, p + 1, depth + 1);
        lemma_after_string(data, p + 1, depth);
        if depth > 1 {
            lemma_after_string(data, p + 1, (depth - 1) as nat);
        }
    }
}

/// A hexadecimal string ends inside the data, behind its begin.
pub proof fn lemma_after_hexadecimal(data: Seq<u8>, p: int)
    ensures
        after_hexadecimal(data, p) matches Some(q) ==> p < q <= data.len(),
    decreases data.len() - p,
{
    if 0 <= p < data.len() {
        lemma_after_hexadecimal(data, p + 1);
    }
}

/// An array or dictionary ends inside the data, behind its begin.
pub proof fn lemma_after_nested(data: Seq<u8>, p: int, depth: nat)
    ensures
        after_nested(data, p, depth) matches Some(q) ==> p < q <= data.len(),
    decreases data.len() - p,
{
    if 0 <= p < data.len() {
        if data[p] == 40 {
            lemma_after_string(data, p + 1, 1);
            if let Some(q) = after_string(data, p + 1, 1) {
                lemma_after_nested(data, q, depth);
            }
        } else if data[p] == 37 {
            lemma_line_end(data, p + 1);
            lemma_after_nested(data, line_end(data, p + 1), depth);
        } else if data[p] == 60 {
            lemma_after_hexadecimal(data, p + 1);
            if let Some(q) = after_hexadecimal(data, p + 1) {
                lemma_after_nested(data, q, depth);
            }
            if p + 1 < data.len() {
                lemma_after_nested(data, p + 2, depth + 1);
            }
        } else {
            lemma_after_nested(data, p + 1, depth);
            lemma_after_nested(data, p + 1, depth + 1);
            if depth > 1 {
                lemma_after_nested(data, p + 1, (depth - 1) as nat);
                if p + 1 < data.len() {
                    lemma_after_nested(data, p + 2, (depth - 1) as nat);
                }
            }
        }
    }
}

/// A number ends inside the data, behind its begin.
pub proof fn lemma_after_number(data: Seq<u8>, p: int)
    requires
        0 <= p < data.len(),
        numeric(data[p]) || data[p] == 43 || data[p] == 45,
    ensures
        p < after_number(data, p) <= data.len(),
{
    lemma_after_digits(data, p);
    lemma_after_digits(data, p + 1);
    let end = after_digits(
        data,
        if byte_at(data, p, 43) || byte_at(data, p, 45) {
            p + 1
        } else {
            p
        },
    );
    lemma_after_space(data, end);
    let second = after_space(data, end);
    lemma_after_digits(data, second);
    lemma_after_space(data, after_digits(data, second));
}

/// An object ends inside the data, behind its begin.
pub proof fn lemma_after_value(data: Seq<u8>, p: int)
    ensures
        after_value(data, p) matches Some(q) ==> p < q <= data.len(),
{
    lemma_words();
    if 0 <= p < data.len() {
        lemma_after_name(data, p + 1);
        lemma_after_string(data, p + 1, 1);
        lemma_after_hexadecimal(data, p + 1);
        lemma_after_nested(data, p + 1, 1);
        lemma_after_nested(data, p + 2, 1);
        if numeric(data[p]) || data[p] == 43 || data[p] == 45 {
            lemma_after_number(data, p);
        }
    }
}

fn is_content_space(b: u8) -> (r: bool)
    ensures
        r == content_space(b),
{
    b == 32 || b == 9 || b == 13 || b == 10
}

fn is_blank(b: u8) -> (r: bool)
    ensures
        r == blank(b),
{
    is_content_space(b) || b == 0 || b == 12
}

fn is_regular(b: u8) -> (r: bool)
    ensures
        r == regular(b),
{
    !is_blank(b) && !(b == 40 || b == 41 || b == 60 || b == 62 || b == 91 || b == 93 || b == 123 || b == 125 || b
        == 47 || b == 37)
}

fn is_numeric(b: u8) -> (r: bool)
    ensures
        r == numeric(b),
{
    (48 <= b && b <= 57) || b == 46
}

fn has_byte(data: &[u8], p: usize, b: u8) -> (r: bool)
    ensures
        r == byte_at(data@, p as int, b),
        r ==> p < usize::MAX,
{
    p < data.len() && data[p] == b
}

fn has_word(data: &[u8], p: usize, word: &str) -> (r: bool)
    ensures
        r == word_at(data@, p as int, word),
{
    let bytes = word.as_bytes();
    if p > data.len() || bytes.len() > data.len() - p {
        return false;
    }
    is_word(data, p, p + bytes.len(), word)
}

fn skip_content_space(data: &[u8], start: usize) -> (r: usize)
    requires
        start <= data@.len(),
    ensures
        r == after_content_space(data@, start as int),
        start <= r <= data@.len(),
{
    let mut p: usize = start;
    while p < data.len() && is_content_space(data[p])
        invariant
            start <= p <= data@.len(),
            after_content_space(data@, p as int) == after_content_space(data@, start as int),
        decreases data@.len() - p,
    {
        p += 1;
    }
    p
}

fn find_line_end(data: &[u8], start: usize) -> (r: usize)
    requires
        start <= data@.len(),
    ensures
        r == line_end(data@, start as int),
        start <= r <= data@.len(),
{
    let mut p: usize = start;
    while p < data.len() && data[p] != 13 && data[p] != 10
        invariant
            start <= p <= data@.len(),
            line_end(data@, p as int) == line_end(data@, start as int),
        decreases data@.len() - p,
    {
        p += 1;
    }
    p
}

fn skip_space(data: &[u8], start: usize) -> (r: usize)
    requires
        start <= data@.len(),
    ensures
        r == after_space(data@, start as int),
        start <= r <= data@.len(),
{
    let mut p: usize = start;
    while p < data.len()
        invariant
            start <= p <= data@.len(),
            after_space(data@, p as int) == after_space(data@, start as int),
        decreases data@.len() - p,
    {
        if is_blank(data[p]) {
            p += 1;
        } else if data[p] == 37 {
            let end = find_line_end(data, p + 1);
            if end == data.len() {
                return p;
            }
            p = end;
        } else {
            return p;
        }
    }
    p
}

fn skip_name(data: &[u8], start: usize) -> (r: usize)
    requires
        start <= data@.len(),
    ensures
        r == after_name(data@, start as int),
        start <= r <= data@.len(),
{
    let mut p: usize = start;
    while p < data.len() && is_regular(data[p])
        invariant
            start <= p <= data@.len(),
            after_name(data@, p as int) == after_name(data@, start as int),
        decreases data@.len() - p,
    {
        p += 1;
    }
    p
}

fn skip_digits(data: &[u8], start: usize) -> (r: usize)
    requires
        start <= data@.len(),
    ensures
        r == after_digits(data@, start as int),
        start <= r <= data@.len(),
{
    let mut p: usize = start;
    while p < data.len() && is_numeric(data[p])
        invariant
            start <= p <= data@.len(),
            after_digits(data@, p as int) == after_digits(data@, start as int),
        decreases data@.len() - p,
    {
        p += 1;
    }
    p
}

fn skip_number(data: &[u8], p: usize) -> (r: usize)
    requires
        p < data@.len(),
    ensures
        r == after_number(data@, p as int),
        p <= r <= data@.len(),
{
    let end = if has_byte(data, p, 43) || has_byte(data, p, 45) {
        skip_digits(data, p + 1)
    } else {
        skip_digits(data, p)
    };
    let second = skip_space(data, end);
    let second_end = skip_digits(data, second);
    let mark = skip_space(data, second_end);
    if second < second_end && has_byte(data, mark, 82) {
        mark + 1
    } else {
        end
    }
}

fn skip_string(data: &[u8], start: usize) -> (r: Option<usize>)
    requires
        1 <= start <= data@.len(),
    ensures
        match after_string(data@, start as int, 1) {
            Some(q) => r matches Some(end) && end == q && start < end <= data@.len(),
            None => r is None,
        },
{
    proof {
        lemma_after_string(data@, start as int, 1);
    }
    let mut p: usize = start;
    let mut depth: usize = 1;
    while p < data.len()
        invariant
            1 <= start <= p <= data@.len(),
            1 <= depth <= p - start + 1,
            after_string(data@, p as int, depth as nat) == after_string(data@, start as int, 1),
            after_string(data@, start as int, 1) matches Some(q) ==> start < q <= data@.len(),
        decreases data@.len() - p,
    {
        if data[p] == 92 {
            if data.len() - p < 2 {
                return None;
            }
            p += 2;
        } else {
            if data[p] == 40 {
                depth += 1;
            } else if data[p] == 41 {
                if depth == 1 {
                    return Some(p + 1);
                }
                depth -= 1;
            }
            p += 1;
        }
    }
    None
}

fn skip_hexadecimal(data: &[u8], start: usize) -> (r: Option<usize>)
    requires
        start <= data@.len(),
    ensures
        match after_hexadecimal(data@, start as int) {
            Some(q) => r matches Some(end) && end == q && start < end <= data@.len(),
            None => r is None,
        },
{
    let mut p: usize = start;
    while p < data.len()
        invariant
            start <= p <= data@.len(),
            after_hexadecimal(data@, p as int) == after_hexadecimal(data@, start as int),
        decreases data@.len() - p,
    {
        if data[p] == 62 {
            return Some(p + 1);
        }
        p += 1;
    }
    None
}

fn skip_nested(data: &[u8], start: usize) -> (r: Option<usize>)
    requires
        1 <= start <= data@.len(),
    ensures
        match after_nested(data@, start as int, 1) {
            Some(q) => r matches Some(end) && end == q && start < end <= data@.len(),
            None => r is None,
        },
{
    let mut p: usize = start;
    let mut depth: usize = 1;
    while p < data.len()
        invariant
            1 <= start <= p <= data@.len(),
            1 <= depth <= p - start + 1,
            after_nested(data@, p as int, depth as nat) == after_nested(data@, start as int, 1),
        decreases data@.len() - p,
    {
        if data[p] == 40 {
            match skip_string(data, p + 1) {
                Some(q) => {
                    p = q;
                },
                None => return None,
            }
        } else if data[p] == 37 {
            p = find_line_end(data, p + 1);
        } else if data[p] == 91 {
            p += 1;
            depth += 1;
        } else if data[p] == 60 && has_byte(data, p + 1, 60) {
            p += 2;
            depth += 1;
        } else if data[p] == 60 {
            match skip_hexadecimal(data, p + 1) {
                Some(q) => {
                    p = q;
                },
                None => return None,
            }
        } else if data[p] == 93 || (data[p] == 62 && has_byte(data, p + 1, 62)) {
            let q: usize = if data[p] == 93 { p + 1 } else { p + 2 };
            if depth == 1 {
                return Some(q);
            }
            p = q;
            depth -= 1;
        } else {
            p += 1;
        }
    }
    None
}

fn skip_value(data: &[u8], p: usize) -> (r: Option<usize>)
    requires
        p <= data@.len(),
    ensures
        match after_value(data@, p as int) {
            Some(q) => r matches Some(end) && end == q && p < end <= data@.len(),
            None => r is None,
        },
{
    proof {
        lemma_words();
        lemma_after_value(data@, p as int);
    }
    if p >= data.len() {
        None
    } else if data[p] == 47 {
        Some(skip_name(data, p + 1))
    } else if has_word(data, p, "true") || has_word(data, p, "null") {
        Some(p + 4)
    } else if has_word(data, p, "false") {
        Some(p + 5)
    } else if is_numeric(data[p]) || data[p] == 43 || data[p] == 45 {
        Some(skip_number(data, p))
    } else if data[p] == 40 {
        skip_string(data, p + 1)
    } else if data[p] == 60 && !has_byte(data, p + 1, 60) {
        skip_hexadecimal(data, p + 1)
    } else if data[p] == 60 {
        skip_nested(data, p + 2)
    } else if data[p] == 91 {
        skip_nested(data, p + 1)
    } else {
        None
    }
}

fn is_hexadecimal(b: u8) -> (r: bool)
    ensures
        r == hexadecimal(b),
{
    (48 <= b && b <= 57) || (65 <= b && b <= 70) || (97 <= b && b <= 102)
}

fn value_of_digit(b: u8) -> (r: u8)
    requires
        hexadecimal(b),
    ensures
        r == digit_value(b),
        r < 16,
{
    if b <= 57 {
        b - 48
    } else if b <= 70 {
        b - 55
    } else {
        b - 87
    }
}

fn unescape(data: &[u8], start: usize, end: usize) -> (r: Vec<u8>)
    requires
        start <= end <= data@.len(),
    ensures
        r@ == unescaped(data@, start as int, end as int),
{
    let mut out: Vec<u8> = Vec::new();
    let mut p: usize = start;
    while p < end
        invariant
            start <= p <= end <= data@.len(),
            out@ + unescaped(data@, p as int, end as int) == unescaped(data@, start as int, end as int),
        decreases end - p,
    {
        let ghost before = out@;
        let ghost rest = unescaped(data@, p as int, end as int);
        if data[p] == 35 && end - p > 2 && is_hexadecimal(data[p + 1]) && is_hexadecimal(data[p + 2]) {
            out.push(value_of_digit(data[p + 1]) * 16 + value_of_digit(data[p + 2]));
            p += 3;
        } else {
            out.push(data[p]);
            p += 1;
        }
        assert(out@ + unescaped(data@, p as int, end as int) =~= before + rest);
    }
    out
}

fn is_name(name: &[u8], word: &str) -> (r: bool)
    ensures
        r == (name@ == key(word)),
{
    assert(name@.subrange(0, name@.len() as int) =~= name@);
    is_word(name, 0, name.len(), word)
}

fn read_entry(entries: ImageEntries, name: &[u8], data: &[u8], value: usize) -> (r: ImageEntries)
    ensures
        r == with_image_entry(entries, name@, data@, value as int),
{
    let truth = has_word(data, value, "true");
    ImageEntries {
        width: entries.width || is_name(name, "W") || is_name(name, "Width"),
        height: entries.height || is_name(name, "H") || is_name(name, "Height"),
        bits: entries.bits || is_name(name, "BPC") || is_name(name, "BitsPerComponent"),
        colored: entries.colored || is_name(name, "CS") || is_name(name, "ColorSpace"),
        short_mask: if is_name(name, "IM") {
            Some(truth)
        } else {
            entries.short_mask
        },
        mask: if is_name(name, "ImageMask") {
            Some(truth)
        } else {
            entries.mask
        },
    }
}

fn entries_lack_color_space(data: &[u8], start: usize) -> (r: bool)
    requires
        start <= data@.len(),
    ensures
        r == lacks_color_space(data@, start as int, no_entries()),
{
    let mut p: usize = start;
    let mut entries = ImageEntries {
        width: false,
        height: false,
        bits: false,
        colored: false,
        short_mask: None,
        mask: None,
    };
    while has_byte(data, p, 47)
        invariant
            p <= data@.len(),
            lacks_color_space(data@, p as int, entries) == lacks_color_space(data@, start as int, no_entries()),
        decreases data@.len() - p,
    {
        let name_end = skip_name(data, p + 1);
        let value = skip_space(data, name_end);
        match skip_value(data, value) {
            Some(end) => {
                let name = unescape(data, p + 1, name_end);
                entries = read_entry(entries, name.as_slice(), data, value);
                p = skip_space(data, end);
            },
            None => return false,
        }
    }
    has_word(data, p, "ID") && entries.width && entries.height && entries.bits && !entries.colored
        && match entries.short_mask {
        Some(truth) => !truth,
        None => match entries.mask {
            Some(truth) => !truth,
            None => true,
        },
    }
}

fn is_bad_image(data: &[u8], p: usize) -> (r: bool)
    requires
        p < data@.len(),
    ensures
        r == bad_image_at(data@, p as int),
{
    proof {
        lemma_words();
    }
    if data.len() - p < 2 || !has_word(data, p, "BI") {
        return false;
    }
    let start = skip_content_space(data, p + 2);
    entries_lack_color_space(data, start)
}

fn is_operator_byte(b: u8) -> (r: bool)
    ensures
        r == operator_byte(b),
{
    (65 <= b && b <= 90) || (97 <= b && b <= 122) || b == 42 || b == 39 || b == 34
}

fn skip_operator(data: &[u8], start: usize) -> (r: usize)
    requires
        start <= data@.len(),
    ensures
        r == after_operator(data@, start as int),
        r <= data@.len(),
{
    let mut p: usize = start;
    while p < data.len() && is_operator_byte(data[p])
        invariant
            p <= data@.len(),
            after_operator(data@, p as int) == after_operator(data@, start as int),
        decreases data@.len() - p,
    {
        p += 1;
    }
    p
}

fn skip_comments(data: &[u8], start: usize) -> (r: usize)
    requires
        start <= data@.len(),
    ensures
        r == after_comments(data@, start as int),
        r <= data@.len(),
{
    let mut p: usize = start;
    while has_byte(data, p, 37)
        invariant
            p <= data@.len(),
            after_comments(data@, p as int) == after_comments(data@, start as int),
        decreases data@.len() - p,
    {
        let end = find_line_end(data, p + 1);
        if end == data.len() {
            return p;
        }
        p = if has_byte(data, end, 13) && has_byte(data, end + 1, 10) {
            end + 2
        } else {
            end + 1
        };
    }
    p
}

fn skip_operand(data: &[u8], p: usize) -> (r: Option<usize>)
    requires
        p <= data@.len(),
    ensures
        match after_operand(data@, p as int) {
            Some(q) => r matches Some(end) && end == q && p < end <= data@.len(),
            None => r is None,
        },
{
    proof {
        lemma_after_operand(data@, p as int);
    }
    if has_byte(data, p, 43) || has_byte(data, p, 45) {
        Some(skip_digits(data, p + 1))
    } else if p < data.len() && is_numeric(data[p]) {
        Some(skip_digits(data, p))
    } else {
        skip_value(data, p)
    }
}

fn skip_operation(data: &[u8], start: usize) -> (r: Option<usize>)
    requires
        start <= data@.len(),
    ensures
        match after_operation(data@, start as int) {
            Some(q) => r matches Some(end) && end == q && start < end <= data@.len(),
            None => r is None,
        },
{
    proof {
        lemma_after_operation(data@, start as int);
    }
    let mut p: usize = start;
    loop
        invariant
            start <= p <= data@.len(),
            after_operation(data@, p as int) == after_operation(data@, start as int),
            after_operation(data@, start as int) matches Some(q) ==> start < q <= data@.len(),
        decreases data@.len() - p,
    {
        match skip_operand(data, p) {
            Some(end) => {
                p = skip_content_space(data, end);
            },
            None => {
                if p < data.len() && is_operator_byte(data[p]) {
                    return Some(skip_content_space(data, skip_operator(data, p)));
                }
                return None;
            },
        }
    }
}

fn comes_to_position(data: &[u8], p: usize) -> (r: bool)
    requires
        p < data@.len(),
        forall|q: int|
            0 <= q < p && operation_at(data@, q) && #[trigger] bad_image_at(data@, q) ==> !comes_to(data@, q),
    ensures
        r == comes_to(data@, p as int),
{
    let mut text: Vec<u8> = Vec::new();
    for i in 0..p
        invariant
            p < data@.len(),
            text@ == data@.take(i as int),
    {
        text.push(data[i]);
        assert(data@.take(i + 1) =~= data@.take(i as int).push(data@[i as int]));
    }
    let mut marker = String::new();
    let ghost prefix = data@.take(p as int);
    assert(p < data.len());
    for i in 0..p + 1
        invariant
            p < data@.len(),
            text@ == prefix + Seq::new(i as nat, |k: int| 113u8),
            marker@ == letters(i as int),
    {
        text.push(113);
        marker.push('q');
        assert(text@ =~= prefix + Seq::new((i + 1) as nat, |k: int| 113u8));
        assert(marker@ =~= letters(i + 1));
    }
    proof {
        lemma_marked(data@, p as int);
        assert(text@ =~= marked(data@, p as int));
    }
    match decode_content(text.as_slice()) {
        Some(ops) => {
            let n = ops.len();
            if n == 0 {
                return false;
            }
            assert(operation_values(ops@).last() == operation_value(ops@[n - 1]));
            same_text(ops[n - 1].operator.as_str(), marker.as_str()) && ops[n - 1].operands.len() == 0
        },
        None => false,
    }
}

/// An operation that can start is not before the one that the search starts with.
proof fn lemma_reaches(data: Seq<u8>, from: int, p: int)
    requires
        reaches(data, from, p),
    ensures
        from <= p,
{
    lemma_after_comments(data, from);
}

/// Whether lopdf comes to an inline image that is no mask and has no color space.
pub fn contains_bad_image(data: &[u8]) -> (r: bool)
    ensures
        r == has_bad_image(data@),
{
    let mut from = skip_content_space(data, 0);
    proof {
        lemma_words();
    }
    loop
        invariant
            from <= data@.len(),
            forall|q: int|
                operation_at(data@, q) && #[trigger] bad_image_at(data@, q) ==> reaches(data@, from as int, q),
            forall|q: int| #[trigger] reaches(data@, from as int, q) ==> operation_at(data@, q),
            key("BI").len() == 2,
        decreases data@.len() - from,
    {
        let start = skip_comments(data, from);
        proof {
            lemma_after_comments(data@, from as int);
        }
        if has_word(data, start, "BI") {
            for p in start..data.len()
                invariant
                    from <= start <= data@.len(),
                    start == after_comments(data@, from as int),
                    word_at(data@, start as int, "BI"),
                    forall|q: int|
                        operation_at(data@, q) && #[trigger] bad_image_at(data@, q) ==> reaches(
                            data@,
                            from as int,
                            q,
                        ),
                    forall|q: int| #[trigger] reaches(data@, from as int, q) ==> operation_at(data@, q),
                    forall|q: int|
                        0 <= q < p && operation_at(data@, q) && #[trigger] bad_image_at(data@, q) ==> !comes_to(
                            data@,
                            q,
                        ),
            {
                if is_bad_image(data, p) && comes_to_position(data, p) {
                    assert(reaches(data@, from as int, p as int));
                    assert(bad_image_at(data@, p as int));
                    return true;
                }
            }
            return false;
        }
        match skip_operation(data, start) {
            Some(next) => {
                assert forall|q: int| #[trigger] reaches(data@, next as int, q) implies operation_at(data@, q) by {
                    lemma_reaches(data@, next as int, q);
                    assert(reaches(data@, from as int, q));
                }
                from = next;
            },
            None => {
                return false;
            },
        }
    }
}

} // verus!
